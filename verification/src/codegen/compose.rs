//! docker-compose output.
use vstd::prelude::*;
use crate::ast::{
    Dependency, DependencyCondition, DependencyV, EnvSource, EnvSourceV, HealthCheckV,
    ServiceBlock, ServiceBlockV, StrMap, Volume, VolumeV, opt_view, string_eq_str, strs_view,
};
use crate::parse::env::copy_strings;
use crate::codegen::traefik::{blocks_view, indent_of, ys};
use crate::text::{
    lex_le, lemma_lex_antisym, lemma_lex_trans, CharClass, append, chars_of, chars_of_string, dec, dec_exec, lemma_lex_total_ordering,
    lemma_skip_class, lex_leq, lines, lines_exec, lit, skip_class_exec, slice_of, sort_strings,
    string_of, strip_suffixes, strip_suffixes_exec, trim, trim_exec, trim_start_class,
    utf8_size_upto, views, eq_chars,
};
use crate::yaml::{
    lemma_map_get_insert, lemma_map_get_insert_other, map_get,
    Yaml, YamlEntry, YamlV, deep_merge_yaml, entries_model, items_model, map_insert,
    map_insert_exec, mapping, merge, parse_yaml, push_entries, render_yaml, sequence, str_entry,
    str_value, yaml_copy, yaml_parse, yaml_render,
};

verus! {

/// The mapping entries after inserting `es` in order into `m` (later keys replace
/// earlier ones in place).
pub open spec fn insert_all(m: Seq<(YamlV, YamlV)>, es: Seq<(YamlV, YamlV)>) -> Seq<
    (YamlV, YamlV),
>
    decreases es.len(),
{
    if es.len() == 0 {
        m
    } else {
        let r = insert_all(m, es.drop_last());
        map_insert(r, es.last().0, es.last().1)
    }
}

/// The entry `(key, value)` when the condition holds, else nothing.
pub open spec fn entry_if(c: bool, key: Seq<char>, value: YamlV) -> Seq<(YamlV, YamlV)> {
    if c {
        seq![(ys(key), value)]
    } else {
        seq![]
    }
}

/// A list of strings as a YAML sequence.
pub open spec fn str_seq(s: Seq<Seq<char>>) -> YamlV {
    YamlV::Sequence(s.map_values(|x: Seq<char>| ys(x)))
}

/// The automatic network of a served container.
pub open spec fn auto_net(name: Seq<char>) -> Seq<char> {
    name + "-net"@
}

/// The automatic networks of the first `n` services: one per service that
/// serves and is not the router container.
pub open spec fn auto_nets(services: Seq<ServiceBlockV>, n: int, rc: Seq<char>) -> Seq<Seq<char>>
    decreases n,
{
    if n <= 0 || n > services.len() {
        seq![]
    } else {
        let s = services[n - 1];
        auto_nets(services, n - 1, rc) + if s.serve.len() > 0 && s.name != rc {
            seq![auto_net(s.name)]
        } else {
            seq![]
        }
    }
}

/// The networks of the serving containers (other than the router container)
/// among the first `n` services: each one's own networks, then its automatic one.
pub open spec fn served_nets(services: Seq<ServiceBlockV>, n: int, rc: Seq<char>) -> Seq<Seq<char>>
    decreases n,
{
    if n <= 0 || n > services.len() {
        seq![]
    } else {
        let s = services[n - 1];
        served_nets(services, n - 1, rc) + if s.serve.len() > 0 && s.name != rc {
            s.networks.push(auto_net(s.name))
        } else {
            seq![]
        }
    }
}

/// The names of `xs` that `seen` does not hold, each once, in the order they
/// first occur.
pub open spec fn fresh_names(xs: Seq<Seq<char>>, seen: Seq<Seq<char>>) -> Seq<Seq<char>>
    decreases xs.len(),
{
    if xs.len() == 0 {
        seq![]
    } else {
        let r = fresh_names(xs.drop_last(), seen);
        if seen.contains(xs.last()) || r.contains(xs.last()) {
            r
        } else {
            r.push(xs.last())
        }
    }
}

/// The networks a service joins besides its own: the router container joins
/// every network of every serving container (`served`) that it is not already
/// on; a serving container its automatic network.
pub open spec fn extra_networks(s: ServiceBlockV, rc: Seq<char>, served: Seq<Seq<char>>) -> Seq<
    Seq<char>,
> {
    if s.name == rc {
        fresh_names(served, s.networks)
    } else if s.serve.len() > 0 {
        seq![auto_net(s.name)]
    } else {
        seq![]
    }
}

/// `host:container[:mode]`.
pub open spec fn volume_text(v: VolumeV) -> Seq<char> {
    v.host_path + ":"@ + v.container_path + match v.mode {
        Some(m) => ":"@ + m,
        None => seq![],
    }
}

/// `service_started` or `service_healthy`.
pub open spec fn condition_text(c: DependencyCondition) -> Seq<char> {
    match c {
        DependencyCondition::Started => "service_started"@,
        DependencyCondition::Healthy => "service_healthy"@,
    }
}

/// The `depends_on` entries: each service with its condition.
pub open spec fn depends_entries(ds: Seq<DependencyV>) -> Seq<(YamlV, YamlV)> {
    ds.map_values(
        |d: DependencyV|
            (ys(d.service), YamlV::Mapping(seq![(ys("condition"@), ys(condition_text(d.condition)))])),
    )
}

/// The healthcheck mapping.
pub open spec fn healthcheck_entries(h: HealthCheckV) -> Seq<(YamlV, YamlV)> {
    seq![(ys("test"@), YamlV::Sequence(seq![ys("CMD-SHELL"@), ys(h.test)]))] + match h.interval {
        Some(x) => seq![(ys("interval"@), ys(x))],
        None => seq![],
    } + match h.timeout {
        Some(x) => seq![(ys("timeout"@), ys(x))],
        None => seq![],
    } + match h.retries {
        Some(n) => seq![(ys("retries"@), YamlV::Number(dec(n as nat)))],
        None => seq![],
    } + match h.start_period {
        Some(x) => seq![(ys("start_period"@), ys(x))],
        None => seq![],
    }
}

/// What the compose file holds for an inline variable: its value, or `${KEY}`
/// for a secret (Docker reads it from the service's secrets file).
pub open spec fn inline_value(key: Seq<char>, value: Seq<char>, secret: bool) -> Seq<char> {
    if secret {
        "${"@ + key + "}"@
    } else {
        value
    }
}

/// The inline variables of an `env from` list, as `environment` entries.
pub open spec fn inline_env(es: Seq<EnvSourceV>) -> Seq<(YamlV, YamlV)>
    decreases es.len(),
{
    if es.len() == 0 {
        seq![]
    } else {
        inline_env(es.drop_last()) + match es.last() {
            EnvSourceV::Inline { key, value, secret } => seq![
                (ys(key), ys(inline_value(key, value, secret))),
            ],
            _ => seq![],
        }
    }
}

/// Some inline variable of the list is secret.
pub open spec fn has_secret_inline(es: Seq<EnvSourceV>) -> bool {
    exists|i: int| 0 <= i < es.len() && (#[trigger] es[i] matches EnvSourceV::Inline { secret, .. } && secret)
}

/// The `env_file` paths of an `env from` list: `env/{name}.{section.}env` for each
/// file source with a file name.
pub open spec fn env_file_paths(name: Seq<char>, es: Seq<EnvSourceV>) -> Seq<Seq<char>>
    decreases es.len(),
{
    if es.len() == 0 {
        seq![]
    } else {
        env_file_paths(name, es.drop_last()) + match es.last() {
            EnvSourceV::File { file, section } => if file.len() > 0 {
                seq![
                    "env/"@ + name + "."@ + match section {
                        Some(s) => s + "."@,
                        None => seq![],
                    } + "env"@,
                ]
            } else {
                seq![]
            },
            _ => seq![],
        }
    }
}

/// The `environment` and `env_file` entries (when there are sources or raw
/// fields); a service with a secret also reads `env/{name}.secrets.env`.
pub open spec fn env_entries(s: ServiceBlockV) -> Seq<(YamlV, YamlV)> {
    if s.env_from.len() > 0 || s.raw.len() > 0 {
        let env = insert_all(seq![], inline_env(s.env_from));
        let files = env_file_paths(s.name, s.env_from) + if has_secret_inline(s.env_from) {
            seq!["env/"@ + s.name + ".secrets.env"@]
        } else {
            seq![]
        };
        entry_if(env.len() > 0, "environment"@, YamlV::Mapping(env)) + entry_if(
            files.len() > 0,
            "env_file"@,
            str_seq(files),
        )
    } else {
        seq![]
    }
}

/// The CPU count of a limit: without a trailing `cpus` or `cpu`, trimmed.
pub open spec fn cpus_text(cpus: Seq<char>) -> Seq<char> {
    trim(strip_suffixes(strip_suffixes(cpus, "cpus"@), "cpu"@))
}

/// The entries of a service, in the order they are written (the raw fields last).
pub open spec fn service_entries(s: ServiceBlockV, extra: Seq<Seq<char>>, restart: Seq<char>) -> Seq<(YamlV, YamlV)> {
    head_of(s, restart) + tail_entries(s, extra)
}

/// The compose definition of a service.
pub open spec fn service_value(s: ServiceBlockV, extra: Seq<Seq<char>>, restart: Seq<char>) -> YamlV {
    YamlV::Mapping(insert_all(seq![], service_entries(s, extra, restart)))
}

/// The `services` mapping after the first `n` services.
pub open spec fn services_map(
    services: Seq<ServiceBlockV>,
    n: int,
    rc: Seq<char>,
    auto: Seq<Seq<char>>,
    restart: Seq<char>,
) -> Seq<(YamlV, YamlV)>
    decreases n,
{
    if n <= 0 || n > services.len() {
        seq![]
    } else {
        let s = services[n - 1];
        map_insert(
            services_map(services, n - 1, rc, auto, restart),
            ys(s.name),
            service_value(s, extra_networks(s, rc, auto), restart),
        )
    }
}

/// All explicit networks of the first `n` services, in order.
pub open spec fn explicit_networks(services: Seq<ServiceBlockV>, n: int) -> Seq<Seq<char>>
    decreases n,
{
    if n <= 0 || n > services.len() {
        seq![]
    } else {
        explicit_networks(services, n - 1) + services[n - 1].networks
    }
}

/// A sorted sequence without repeats: each run of equal neighbours kept once.
pub open spec fn dedup_adjacent(s: Seq<Seq<char>>) -> Seq<Seq<char>>
    decreases s.len(),
{
    if s.len() == 0 {
        s
    } else {
        let r = dedup_adjacent(s.drop_last());
        if r.len() > 0 && r.last() == s.last() {
            r
        } else {
            r.push(s.last())
        }
    }
}

/// The distinct names, in `str` order.
pub open spec fn sorted_distinct(names: Seq<Seq<char>>) -> Seq<Seq<char>> {
    dedup_adjacent(names.sort_by(lex_leq()))
}

/// The raw YAML blocks of the first `n` services merged into `v`, in order
/// (blocks that are not YAML are skipped).
pub open spec fn merge_raw_blocks(v: YamlV, services: Seq<ServiceBlockV>, n: int) -> YamlV
    decreases n,
{
    if n <= 0 || n > services.len() {
        v
    } else {
        let r = merge_raw_blocks(v, services, n - 1);
        match services[n - 1].raw_compose_block {
            Some(raw) => match yaml_parse(raw) {
                Some(x) => merge(r, x),
                None => r,
            },
            None => r,
        }
    }
}

/// The compose document: `services`, then `networks` (every explicit and
/// automatic network once, in `str` order, each an empty mapping) when there
/// are any, with the services' raw YAML blocks deep-merged in.
pub open spec fn compose_config(services: Seq<ServiceBlockV>, rc: Seq<char>, restart: Seq<char>) -> YamlV {
    let auto = auto_nets(services, services.len() as int, rc);
    let served = served_nets(services, services.len() as int, rc);
    let nets = sorted_distinct(explicit_networks(services, services.len() as int) + auto);
    let doc = seq![(ys("services"@), YamlV::Mapping(services_map(services, services.len() as int, rc, served, restart)))]
        + entry_if(
        nets.len() > 0,
        "networks"@,
        YamlV::Mapping(nets.map_values(|n: Seq<char>| (ys(n), YamlV::Mapping(seq![])))),
    );
    merge_raw_blocks(YamlV::Mapping(doc), services, services.len() as int)
}

/// Generator of docker-compose YAML.
pub struct ComposeGenerator;

/// Inserts copies of `es` in order into `m` (see `insert_all`).
fn insert_all_exec(m: &mut Vec<YamlEntry>, es: &Vec<YamlEntry>)
    ensures
        entries_model(final(m)@) == insert_all(entries_model(old(m)@), entries_model(es@)),
{
    let ghost m0 = entries_model(m@);
    let ghost ev = entries_model(es@);
    let mut i: usize = 0;
    while i < es.len()
        invariant
            i <= es.len(),
            ev == entries_model(es@),
            entries_model(m@) == insert_all(m0, ev.take(i as int)),
        decreases es.len() - i,
    {
        assert(ev.take(i as int + 1).drop_last() =~= ev.take(i as int));
        map_insert_exec(m, yaml_copy(&es[i].key), yaml_copy(&es[i].value));
        i = i + 1;
    }
    assert(ev.take(es.len() as int) =~= ev);
}

/// A list of strings as a YAML sequence (see `str_seq`).
fn str_seq_exec(v: &Vec<String>) -> (r: Yaml)
    ensures
        r.model() == str_seq(strs_view(v@)),
{
    let mut items: Vec<Yaml> = Vec::new();
    let mut i: usize = 0;
    while i < v.len()
        invariant
            i <= v.len(),
            items_model(items@) == strs_view(v@).take(i as int).map_values(|x: Seq<char>| ys(x)),
        decreases v.len() - i,
    {
        let ghost prev = items_model(items@);
        items.push(Yaml::Str(v[i].clone()));
        assert(items_model(items@) =~= prev.push(ys(v@[i as int]@)));
        assert(strs_view(v@).take(i as int + 1).map_values(|x: Seq<char>| ys(x)) =~= strs_view(
            v@,
        ).take(i as int).map_values(|x: Seq<char>| ys(x)).push(ys(v@[i as int]@)));
        i = i + 1;
    }
    assert(strs_view(v@).take(v.len() as int) =~= strs_view(v@));
    sequence(items)
}

/// `host:container[:mode]` (see `volume_text`).
fn volume_text_exec(v: &Volume) -> (r: String)
    ensures
        r@ == volume_text(v@),
{
    let mut t = chars_of_string(&v.host_path);
    append(&mut t, &lit(":"));
    append(&mut t, &chars_of_string(&v.container_path));
    match &v.mode {
        Some(m) => {
            append(&mut t, &lit(":"));
            append(&mut t, &chars_of_string(m));
        },
        None => {},
    }
    string_of(&t)
}

/// The healthcheck mapping (see `healthcheck_entries`).
fn healthcheck_exec(h: &crate::ast::HealthCheck) -> (r: Vec<YamlEntry>)
    ensures
        entries_model(r@) == healthcheck_entries(h@),
{
    let test = vec![str_value("CMD-SHELL"), Yaml::Str(h.test.clone())];
    assert(items_model(test@) =~= seq![ys("CMD-SHELL"@), ys(h.test@)]);
    let mut r = vec![str_entry("test", sequence(test))];
    let ghost t0 = entries_model(r@);
    match &h.interval {
        Some(x) => r.push(str_entry("interval", Yaml::Str(x.clone()))),
        None => {},
    }
    let ghost t1 = entries_model(r@);
    match &h.timeout {
        Some(x) => r.push(str_entry("timeout", Yaml::Str(x.clone()))),
        None => {},
    }
    let ghost t2 = entries_model(r@);
    match h.retries {
        Some(n) => r.push(str_entry("retries", Yaml::Number(string_of(&dec_exec(n as u64))))),
        None => {},
    }
    let ghost t3 = entries_model(r@);
    match &h.start_period {
        Some(x) => r.push(str_entry("start_period", Yaml::Str(x.clone()))),
        None => {},
    }
    assert(t1 =~= t0 + match h@.interval {
        Some(x) => seq![(ys("interval"@), ys(x))],
        None => seq![],
    });
    assert(t2 =~= t1 + match h@.timeout {
        Some(x) => seq![(ys("timeout"@), ys(x))],
        None => seq![],
    });
    assert(t3 =~= t2 + match h@.retries {
        Some(n) => seq![(ys("retries"@), YamlV::Number(dec(n as nat)))],
        None => seq![],
    });
    assert(entries_model(r@) =~= t3 + match h@.start_period {
        Some(x) => seq![(ys("start_period"@), ys(x))],
        None => seq![],
    });
    r
}

/// The `depends_on` entries (see `depends_entries`).
fn depends_exec(ds: &Vec<Dependency>) -> (r: Vec<YamlEntry>)
    ensures
        entries_model(r@) == depends_entries(ds@.map_values(|d: Dependency| d@)),
{
    let ghost dv = ds@.map_values(|d: Dependency| d@);
    let mut r: Vec<YamlEntry> = Vec::new();
    let mut i: usize = 0;
    while i < ds.len()
        invariant
            i <= ds.len(),
            dv == ds@.map_values(|d: Dependency| d@),
            entries_model(r@) == depends_entries(dv.take(i as int)),
        decreases ds.len() - i,
    {
        let d = &ds[i];
        let cond = match d.condition {
            DependencyCondition::Started => "service_started",
            DependencyCondition::Healthy => "service_healthy",
        };
        let cm = vec![str_entry("condition", str_value(cond))];
        assert(entries_model(cm@) =~= seq![(ys("condition"@), ys(condition_text(d.condition)))]);
        r.push(YamlEntry { key: Yaml::Str(d.service.clone()), value: mapping(cm) });
        assert(dv[i as int] == d@);
        assert(dv.take(i as int + 1) =~= dv.take(i as int).push(d@));
        assert(depends_entries(dv.take(i as int + 1)) =~= depends_entries(dv.take(i as int)).push(
            (ys(d@.service), YamlV::Mapping(seq![(ys("condition"@), ys(condition_text(d.condition)))])),
        ));
        assert(entries_model(r@) =~= depends_entries(dv.take(i as int + 1)));
        i = i + 1;
    }
    assert(dv.take(ds.len() as int) =~= dv);
    r
}

/// The `environment` and `env_file` entries (see `env_entries`).
fn env_exec(s: &ServiceBlock) -> (r: Vec<YamlEntry>)
    ensures
        entries_model(r@) == env_entries(s@),
{
    proof {
        reveal_strlit("${");
        reveal_strlit("}");
    }
    let mut r: Vec<YamlEntry> = Vec::new();
    if s.env_from.len() > 0 || s.raw.entries.len() > 0 {
        let ghost ev = s@.env_from;
        let mut inline: Vec<YamlEntry> = Vec::new();
        let mut files: Vec<String> = Vec::new();
        let mut secret_seen = false;
        let mut i: usize = 0;
        while i < s.env_from.len()
            invariant
                i <= s.env_from.len(),
                ev == s@.env_from,
                entries_model(inline@) == inline_env(ev.take(i as int)),
                strs_view(files@) == env_file_paths(s@.name, ev.take(i as int)),
                secret_seen == has_secret_inline(ev.take(i as int)),
            decreases s.env_from.len() - i,
        {
            assert(ev.take(i as int + 1).drop_last() =~= ev.take(i as int));
            assert(ev[i as int] == s.env_from@[i as int]@);
            let ghost pi = entries_model(inline@);
            let ghost pf = strs_view(files@);
            match &s.env_from[i] {
                EnvSource::Inline { key, value, secret } => {
                    let shown = if *secret {
                        let mut t = lit("${");
                        append(&mut t, &chars_of_string(key));
                        append(&mut t, &lit("}"));
                        string_of(&t)
                    } else {
                        value.clone()
                    };
                    assert(shown@ == inline_value(key@, value@, *secret));
                    inline.push(YamlEntry { key: Yaml::Str(key.clone()), value: Yaml::Str(shown) });
                    assert(entries_model(inline@) =~= pi.push(
                        (ys(key@), ys(inline_value(key@, value@, *secret))),
                    ));
                    assert(strs_view(files@) =~= pf + Seq::<Seq<char>>::empty());
                    if *secret {
                        assert(ev.take(i as int + 1)[i as int] == ev[i as int]);
                        secret_seen = true;
                    }
                },
                EnvSource::File { file, section } => {
                    assert(entries_model(inline@) =~= pi + Seq::<(YamlV, YamlV)>::empty());
                    if file.as_str().unicode_len() > 0 {
                        let mut t = lit("env/");
                        append(&mut t, &chars_of_string(&s.name));
                        append(&mut t, &lit("."));
                        match section {
                            Some(sec) => {
                                append(&mut t, &chars_of_string(sec));
                                append(&mut t, &lit("."));
                            },
                            None => {},
                        }
                        append(&mut t, &lit("env"));
                        assert(t@ =~= "env/"@ + s@.name + "."@ + match opt_view(*section) {
                            Some(x) => x + "."@,
                            None => seq![],
                        } + "env"@);
                        files.push(string_of(&t));
                        assert(strs_view(files@) =~= pf.push(t@));
                    } else {
                        assert(strs_view(files@) =~= pf + Seq::<Seq<char>>::empty());
                    }
                },
                EnvSource::VarRef { .. } => {
                    assert(entries_model(inline@) =~= pi + Seq::<(YamlV, YamlV)>::empty());
                    assert(strs_view(files@) =~= pf + Seq::<Seq<char>>::empty());
                },
            }
            proof {
                let t1 = ev.take(i as int + 1);
                assert forall|j: int| 0 <= j < i implies ev.take(i as int)[j] == #[trigger] t1[j] by {}
                if has_secret_inline(ev.take(i as int)) {
                    let j = choose|j: int| 0 <= j < ev.take(i as int).len() && (
                    #[trigger] ev.take(i as int)[j] matches EnvSourceV::Inline { secret, .. } && secret);
                    assert(t1[j] == ev.take(i as int)[j]);
                }
                if has_secret_inline(t1) {
                    let j = choose|j: int| 0 <= j < t1.len() && (
                    #[trigger] t1[j] matches EnvSourceV::Inline { secret, .. } && secret);
                    if j < i {
                        assert(ev.take(i as int)[j] == t1[j]);
                    }
                }
            }
            i = i + 1;
        }
        assert(ev.take(s.env_from.len() as int) =~= ev);
        if secret_seen {
            let mut t = lit("env/");
            append(&mut t, &chars_of_string(&s.name));
            append(&mut t, &lit(".secrets.env"));
            let ghost pf = strs_view(files@);
            files.push(string_of(&t));
            assert(strs_view(files@) =~= pf + seq!["env/"@ + s@.name + ".secrets.env"@]);
        } else {
            assert(strs_view(files@) =~= strs_view(files@) + Seq::<Seq<char>>::empty());
        }
        let mut env: Vec<YamlEntry> = Vec::new();
        assert(entries_model(env@) =~= Seq::<(YamlV, YamlV)>::empty());
        insert_all_exec(&mut env, &inline);
        if env.len() > 0 {
            r.push(str_entry("environment", mapping(env)));
        }
        let ghost r1 = entries_model(r@);
        if files.len() > 0 {
            r.push(str_entry("env_file", str_seq_exec(&files)));
        }
        assert(entries_model(r@) =~= r1 + entry_if(
            files.len() > 0,
            "env_file"@,
            str_seq(strs_view(files@)),
        ));
    } else {
        assert(entries_model(r@) =~= Seq::<(YamlV, YamlV)>::empty());
    }
    r
}

/// Two lists of strings, one after the other.
fn concat_strings(a: &Vec<String>, b: &Vec<String>) -> (r: Vec<String>)
    ensures
        strs_view(r@) == strs_view(a@) + strs_view(b@),
{
    let mut r = copy_strings(a);
    let mut c = copy_strings(b);
    let ghost rv = strs_view(r@);
    let ghost cv = strs_view(c@);
    r.append(&mut c);
    assert(strs_view(r@) =~= rv + cv);
    r
}

/// The volume texts of a service.
fn volume_texts(vols: &Vec<Volume>) -> (r: Vec<String>)
    ensures
        strs_view(r@) == vols@.map_values(|v: Volume| v@).map_values(|v: VolumeV| volume_text(v)),
{
    let ghost vv = vols@.map_values(|v: Volume| v@);
    let mut r: Vec<String> = Vec::new();
    let mut j: usize = 0;
    while j < vols.len()
        invariant
            j <= vols.len(),
            vv == vols@.map_values(|v: Volume| v@),
            strs_view(r@) == vv.take(j as int).map_values(|v: VolumeV| volume_text(v)),
        decreases vols.len() - j,
    {
        let t = volume_text_exec(&vols[j]);
        let ghost prev = strs_view(r@);
        r.push(t);
        assert(vv[j as int] == vols@[j as int]@);
        assert(strs_view(r@) =~= prev.push(volume_text(vv[j as int])));
        assert(vv.take(j as int + 1).map_values(|v: VolumeV| volume_text(v)) =~= vv.take(
            j as int,
        ).map_values(|v: VolumeV| volume_text(v)).push(volume_text(vv[j as int])));
        j = j + 1;
    }
    assert(vv.take(j as int) =~= vv);
    r
}

/// The exposed ports as strings.
fn port_values(ports: &Vec<u16>) -> (r: Vec<Yaml>)
    ensures
        items_model(r@) == ports@.map_values(|p: u16| ys(dec(p as nat))),
{
    let mut r: Vec<Yaml> = Vec::new();
    let mut j: usize = 0;
    while j < ports.len()
        invariant
            j <= ports.len(),
            items_model(r@) == ports@.take(j as int).map_values(|p: u16| ys(dec(p as nat))),
        decreases ports.len() - j,
    {
        let ghost prev = items_model(r@);
        let p = ports[j];
        r.push(Yaml::Str(string_of(&dec_exec(p as u64))));
        assert(items_model(r@) =~= prev.push(ys(dec(p as nat))));
        assert(ports@.take(j as int + 1).map_values(|p: u16| ys(dec(p as nat))) =~= ports@.take(
            j as int,
        ).map_values(|p: u16| ys(dec(p as nat))).push(ys(dec(p as nat))));
        j = j + 1;
    }
    assert(ports@.take(j as int) =~= ports@);
    r
}

/// The raw fields as entries.
fn raw_entries(raw: &StrMap<Yaml>) -> (r: Vec<YamlEntry>)
    ensures
        entries_model(r@) == raw@.map_values(|e: (Seq<char>, YamlV)| (ys(e.0), e.1)),
{
    let ghost rv = raw@;
    let mut r: Vec<YamlEntry> = Vec::new();
    let mut j: usize = 0;
    while j < raw.entries.len()
        invariant
            j <= raw.entries.len(),
            rv == raw@,
            entries_model(r@) == rv.take(j as int).map_values(
                |e: (Seq<char>, YamlV)| (ys(e.0), e.1),
            ),
        decreases raw.entries.len() - j,
    {
        let e = &raw.entries[j];
        let ghost prev = entries_model(r@);
        r.push(YamlEntry { key: Yaml::Str(e.key.clone()), value: yaml_copy(&e.value) });
        assert(rv[j as int] == (e.key@, e.value@));
        assert(entries_model(r@) =~= prev.push((ys(e.key@), e.value@)));
        assert(rv.take(j as int + 1).map_values(|e: (Seq<char>, YamlV)| (ys(e.0), e.1))
            =~= rv.take(j as int).map_values(|e: (Seq<char>, YamlV)| (ys(e.0), e.1)).push(
            (ys(e.key@), e.value@),
        ));
        j = j + 1;
    }
    assert(rv.take(j as int) =~= rv);
    r
}

/// The entries from the limits to `user`.
fn head_entries(service: &ServiceBlock, extra_networks: &Vec<String>) -> (r: Vec<YamlEntry>)
    ensures
        entries_model(r@) == (match service@.limit {
            Some(l) => seq![(ys("mem_limit"@), ys(l.memory)), (ys("cpus"@), ys(cpus_text(l.cpus)))],
            None => seq![],
        }) + entry_if(
            (service@.networks + strs_view(extra_networks@)).len() > 0,
            "networks"@,
            str_seq(service@.networks + strs_view(extra_networks@)),
        ) + entry_if(
            service@.volumes.len() > 0,
            "volumes"@,
            str_seq(service@.volumes.map_values(|v: VolumeV| volume_text(v))),
        ) + entry_if(
            service@.expose.len() > 0,
            "expose"@,
            YamlV::Sequence(service@.expose.map_values(|p: u16| ys(dec(p as nat)))),
        ) + match service@.user {
            Some(u) => seq![(ys("user"@), ys(u))],
            None => seq![],
        },
{
    let ghost s = service@;
    let mut es: Vec<YamlEntry> = Vec::new();
    match &service.limit {
        Some(l) => {
            es.push(str_entry("mem_limit", Yaml::Str(l.memory.clone())));
            let c1 = strip_suffixes_exec(&chars_of_string(&l.cpus), &lit("cpus"));
            let c2 = strip_suffixes_exec(&c1, &lit("cpu"));
            es.push(str_entry("cpus", Yaml::Str(string_of(&trim_exec(&c2)))));
        },
        None => {},
    }
    let ghost e1 = entries_model(es@);
    let nets = concat_strings(&service.networks, extra_networks);
    if nets.len() > 0 {
        es.push(str_entry("networks", str_seq_exec(&nets)));
    }
    let ghost e2 = entries_model(es@);
    if service.volumes.len() > 0 {
        es.push(str_entry("volumes", str_seq_exec(&volume_texts(&service.volumes))));
    }
    let ghost e3 = entries_model(es@);
    if service.expose.len() > 0 {
        es.push(str_entry("expose", sequence(port_values(&service.expose))));
    }
    let ghost e4 = entries_model(es@);
    match &service.user {
        Some(u) => es.push(str_entry("user", Yaml::Str(u.clone()))),
        None => {},
    }
    assert(e1 =~= match s.limit {
        Some(l) => seq![(ys("mem_limit"@), ys(l.memory)), (ys("cpus"@), ys(cpus_text(l.cpus)))],
        None => seq![],
    });
    assert(e2 =~= e1 + entry_if(
        (s.networks + strs_view(extra_networks@)).len() > 0,
        "networks"@,
        str_seq(s.networks + strs_view(extra_networks@)),
    ));
    assert(e3 =~= e2 + entry_if(
        s.volumes.len() > 0,
        "volumes"@,
        str_seq(s.volumes.map_values(|v: VolumeV| volume_text(v))),
    ));
    assert(e4 =~= e3 + entry_if(
        s.expose.len() > 0,
        "expose"@,
        YamlV::Sequence(s.expose.map_values(|p: u16| ys(dec(p as nat)))),
    ));
    assert(entries_model(es@) =~= e4 + match s.user {
        Some(u) => seq![(ys("user"@), ys(u))],
        None => seq![],
    });
    es
}

/// The entries after `restart` (see `tail_entries`).
fn tail_entries_exec(service: &ServiceBlock, extra_networks: &Vec<String>) -> (r: Vec<YamlEntry>)
    ensures
        entries_model(r@) == tail_entries(service@, strs_view(extra_networks@)),
{
    let ghost s = service@;
    let mut es = head_entries(service, extra_networks);
    let ghost e5 = entries_model(es@);
    if service.depends_on.len() > 0 {
        let deps = depends_exec(&service.depends_on);
        let mut dm: Vec<YamlEntry> = Vec::new();
        assert(entries_model(dm@) =~= Seq::<(YamlV, YamlV)>::empty());
        insert_all_exec(&mut dm, &deps);
        es.push(str_entry("depends_on", mapping(dm)));
    }
    let ghost e6 = entries_model(es@);
    match &service.healthcheck {
        Some(h) => es.push(str_entry("healthcheck", mapping(healthcheck_exec(h)))),
        None => {},
    }
    let ghost e7 = entries_model(es@);
    assert(e6 =~= e5 + entry_if(
        s.depends_on.len() > 0,
        "depends_on"@,
        YamlV::Mapping(insert_all(seq![], depends_entries(s.depends_on))),
    ));
    assert(e7 =~= e6 + match s.healthcheck {
        Some(h) => seq![(ys("healthcheck"@), YamlV::Mapping(healthcheck_entries(h)))],
        None => seq![],
    });
    push_entries(&mut es, env_exec(service));
    push_entries(&mut es, raw_entries(&service.raw));
    es
}

impl ComposeGenerator {
    /// The compose definition of a service (see `service_value`): image,
    /// container name, the `restart` policy, limits, networks (its own
    /// and `extra_networks`), volumes, exposed ports, user, dependencies,
    /// healthcheck, environment and env files, then the raw fields.
    pub fn generate_service(service: &ServiceBlock, extra_networks: &Vec<String>, restart: &str) -> (r: Yaml)
        ensures
            r.model() == service_value(service@, strs_view(extra_networks@), restart@),
    {
        let mut es: Vec<YamlEntry> = Vec::new();
        es.push(str_entry("image", Yaml::Str(service.image.clone())));
        es.push(str_entry("container_name", Yaml::Str(service.name.clone())));
        es.push(str_entry("restart", str_value(restart)));
        assert(entries_model(es@) =~= head_of(service@, restart@));
        push_entries(&mut es, tail_entries_exec(service, extra_networks));
        let mut m: Vec<YamlEntry> = Vec::new();
        assert(entries_model(m@) =~= Seq::<(YamlV, YamlV)>::empty());
        insert_all_exec(&mut m, &es);
        mapping(m)
    }
}

/// Each run of equal neighbours kept once (see `dedup_adjacent`).
pub(crate) fn dedup_adjacent_exec(v: &Vec<Vec<char>>) -> (r: Vec<String>)
    ensures
        strs_view(r@) == dedup_adjacent(views(v@)),
{
    let ghost vv = views(v@);
    let mut r: Vec<String> = Vec::new();
    let mut last: Vec<char> = Vec::new();
    let mut i: usize = 0;
    assert(vv.take(0) =~= Seq::<Seq<char>>::empty());
    while i < v.len()
        invariant
            i <= v.len(),
            vv == views(v@),
            strs_view(r@) == dedup_adjacent(vv.take(i as int)),
            r.len() > 0 ==> last@ == strs_view(r@).last(),
        decreases v.len() - i,
    {
        assert(vv.take(i as int + 1).drop_last() =~= vv.take(i as int));
        assert(vv.take(i as int + 1).last() == v@[i as int]@);
        if r.len() == 0 || !eq_chars(&last, &v[i]) {
            let ghost prev = strs_view(r@);
            r.push(string_of(&v[i]));
            assert(strs_view(r@) =~= prev.push(v@[i as int]@));
            last = slice_of(&v[i], 0, v[i].len());
            assert(v@[i as int]@.subrange(0, v@[i as int]@.len() as int) =~= v@[i as int]@);
        }
        i = i + 1;
    }
    assert(vv.take(v.len() as int) =~= vv);
    r
}

/// The automatic networks (see `auto_nets`).
fn auto_nets_exec(services: &[ServiceBlock], router_container: &str) -> (r: Vec<String>)
    ensures
        strs_view(r@) == auto_nets(
            blocks_view(services@),
            services@.len() as int,
            router_container@,
        ),
{
    let ghost sv = blocks_view(services@);
    let mut r: Vec<String> = Vec::new();
    let mut i: usize = 0;
    assert(strs_view(r@) =~= Seq::<Seq<char>>::empty());
    while i < services.len()
        invariant
            i <= services.len(),
            sv == blocks_view(services@),
            strs_view(r@) == auto_nets(sv, i as int, router_container@),
        decreases services.len() - i,
    {
        let s = &services[i];
        assert(sv[i as int] == s@);
        let ghost prev = strs_view(r@);
        if s.serve.len() > 0 && !string_eq_str(&s.name, router_container) {
            let mut t = chars_of_string(&s.name);
            append(&mut t, &lit("-net"));
            r.push(string_of(&t));
            assert(strs_view(r@) =~= prev + seq![auto_net(s@.name)]);
        } else {
            assert(strs_view(r@) =~= prev + Seq::<Seq<char>>::empty());
        }
        i = i + 1;
    }
    r
}

/// The networks of the serving containers (see `served_nets`).
fn served_nets_exec(services: &[ServiceBlock], router_container: &str) -> (r: Vec<String>)
    ensures
        strs_view(r@) == served_nets(
            blocks_view(services@),
            services@.len() as int,
            router_container@,
        ),
{
    let ghost sv = blocks_view(services@);
    let mut r: Vec<String> = Vec::new();
    let mut i: usize = 0;
    assert(strs_view(r@) =~= Seq::<Seq<char>>::empty());
    while i < services.len()
        invariant
            i <= services.len(),
            sv == blocks_view(services@),
            strs_view(r@) == served_nets(sv, i as int, router_container@),
        decreases services.len() - i,
    {
        let s = &services[i];
        assert(sv[i as int] == s@);
        let ghost prev = strs_view(r@);
        if s.serve.len() > 0 && !string_eq_str(&s.name, router_container) {
            let mut k: usize = 0;
            while k < s.networks.len()
                invariant
                    k <= s.networks.len(),
                    strs_view(r@) == prev + s@.networks.take(k as int),
                decreases s.networks.len() - k,
            {
                let ghost before = strs_view(r@);
                r.push(s.networks[k].clone());
                assert(strs_view(r@) =~= before.push(s@.networks[k as int]));
                assert(s@.networks.take(k as int + 1) =~= s@.networks.take(k as int).push(
                    s@.networks[k as int],
                ));
                k = k + 1;
            }
            assert(s@.networks.take(k as int) =~= s@.networks);
            let mut t = chars_of_string(&s.name);
            append(&mut t, &lit("-net"));
            let ghost mid = strs_view(r@);
            assert(mid == prev + s@.networks);
            r.push(string_of(&t));
            assert(t@ == auto_net(s@.name));
            assert(strs_view(r@) =~= mid.push(t@));
            assert(strs_view(r@) =~= prev + s@.networks.push(auto_net(s@.name)));
        } else {
            assert(strs_view(r@) =~= prev + Seq::<Seq<char>>::empty());
        }
        i = i + 1;
    }
    r
}

/// Whether a list of names holds `x`.
fn holds_name(v: &Vec<String>, x: &String) -> (r: bool)
    ensures
        r == strs_view(v@).contains(x@),
{
    let mut i: usize = 0;
    while i < v.len()
        invariant
            i <= v.len(),
            forall|j: int| 0 <= j < i ==> strs_view(v@)[j] != x@,
        decreases v.len() - i,
    {
        if v[i] == *x {
            assert(strs_view(v@)[i as int] == x@);
            return true;
        }
        i = i + 1;
    }
    false
}

/// The names of `xs` not in `seen`, each once (see `fresh_names`).
fn fresh_names_exec(xs: &Vec<String>, seen: &Vec<String>) -> (r: Vec<String>)
    ensures
        strs_view(r@) == fresh_names(strs_view(xs@), strs_view(seen@)),
{
    let ghost xv = strs_view(xs@);
    let mut r: Vec<String> = Vec::new();
    let mut i: usize = 0;
    assert(xv.take(0).len() == 0);
    while i < xs.len()
        invariant
            i <= xs.len(),
            xv == strs_view(xs@),
            strs_view(r@) == fresh_names(xv.take(i as int), strs_view(seen@)),
        decreases xs.len() - i,
    {
        assert(xv.take(i as int + 1).drop_last() =~= xv.take(i as int));
        assert(xv.take(i as int + 1).last() == xs@[i as int]@);
        if !holds_name(seen, &xs[i]) && !holds_name(&r, &xs[i]) {
            let ghost before = strs_view(r@);
            r.push(xs[i].clone());
            assert(strs_view(r@) =~= before.push(xs@[i as int]@));
        }
        i = i + 1;
    }
    assert(xv.take(xs.len() as int) =~= xv);
    r
}

/// The networks a service joins besides its own (see `extra_networks`).
fn extra_networks_exec(s: &ServiceBlock, router_container: &str, served: &Vec<String>) -> (r: Vec<
    String,
>)
    ensures
        strs_view(r@) == extra_networks(s@, router_container@, strs_view(served@)),
{
    if string_eq_str(&s.name, router_container) {
        fresh_names_exec(served, &s.networks)
    } else if s.serve.len() > 0 {
        let mut t = chars_of_string(&s.name);
        append(&mut t, &lit("-net"));
        let r = vec![string_of(&t)];
        assert(strs_view(r@) =~= seq![auto_net(s@.name)]);
        r
    } else {
        let r: Vec<String> = Vec::new();
        assert(strs_view(r@) =~= Seq::<Seq<char>>::empty());
        r
    }
}

impl ComposeGenerator {
    /// Every explicit network of the services and every name of `extra`, once
    /// each, in `str` order.
    pub fn collect_networks(services: &[ServiceBlock], extra: &Vec<String>) -> (r: Vec<String>)
        ensures
            strs_view(r@) == sorted_distinct(
                explicit_networks(blocks_view(services@), services@.len() as int) + strs_view(
                    extra@,
                ),
            ),
    {
        let ghost sv = blocks_view(services@);
        let mut all: Vec<Vec<char>> = Vec::new();
        let mut i: usize = 0;
        assert(views(all@) =~= Seq::<Seq<char>>::empty());
        while i < services.len()
            invariant
                i <= services.len(),
                sv == blocks_view(services@),
                views(all@) == explicit_networks(sv, i as int),
            decreases services.len() - i,
        {
            let s = &services[i];
            assert(sv[i as int] == s@);
            let ghost base = views(all@);
            let mut k: usize = 0;
            while k < s.networks.len()
                invariant
                    k <= s.networks.len(),
                    views(all@) == base + strs_view(s.networks@).take(k as int),
                decreases s.networks.len() - k,
            {
                let ghost prev = views(all@);
                let x = chars_of_string(&s.networks[k]);
                all.push(x);
                assert(views(all@) =~= prev.push(x@));
                assert(strs_view(s.networks@).take(k as int + 1) =~= strs_view(s.networks@).take(
                    k as int,
                ).push(x@));
                assert(views(all@) =~= base + strs_view(s.networks@).take(k as int + 1));
                k = k + 1;
            }
            assert(strs_view(s.networks@).take(k as int) =~= s@.networks);
            i = i + 1;
        }
        let ghost base = views(all@);
        let mut k: usize = 0;
        while k < extra.len()
            invariant
                k <= extra.len(),
                views(all@) == base + strs_view(extra@).take(k as int),
            decreases extra.len() - k,
        {
            let ghost prev = views(all@);
            let x = chars_of_string(&extra[k]);
            all.push(x);
            assert(views(all@) =~= prev.push(x@));
            assert(strs_view(extra@).take(k as int + 1) =~= strs_view(extra@).take(k as int).push(
                x@,
            ));
            assert(views(all@) =~= base + strs_view(extra@).take(k as int + 1));
            k = k + 1;
        }
        assert(strs_view(extra@).take(k as int) =~= strs_view(extra@));
        let sorted = sort_strings(all);
        dedup_adjacent_exec(&sorted)
    }

    /// The compose document with the default restart policy `unless-stopped`
    /// (see `generate_with_restart`).
    pub fn generate(services: &[ServiceBlock], router_container: &str) -> (r: Yaml)
        ensures
            r.model() == compose_config(blocks_view(services@), router_container@, "unless-stopped"@),
    {
        Self::generate_with_restart(services, router_container, "unless-stopped")
    }

    /// The compose document (see `compose_config`): one service per block, each
    /// with the `restart` policy of the defaults (served containers join their
    /// `{name}-net`, the router container every network of theirs), the
    /// `networks` list, and the raw YAML blocks deep-merged in.
    pub fn generate_with_restart(services: &[ServiceBlock], router_container: &str, restart: &str) -> (r: Yaml)
        ensures
            r.model() == compose_config(blocks_view(services@), router_container@, restart@),
    {
        let ghost sv = blocks_view(services@);
        let auto = auto_nets_exec(services, router_container);
        let served = served_nets_exec(services, router_container);
        let mut sm: Vec<YamlEntry> = Vec::new();
        let mut i: usize = 0;
        assert(entries_model(sm@) =~= Seq::<(YamlV, YamlV)>::empty());
        while i < services.len()
            invariant
                i <= services.len(),
                sv == blocks_view(services@),
                entries_model(sm@) == services_map(
                    sv,
                    i as int,
                    router_container@,
                    strs_view(served@),
                    restart@,
                ),
            decreases services.len() - i,
        {
            let s = &services[i];
            assert(sv[i as int] == s@);
            let extra = extra_networks_exec(s, router_container, &served);
            map_insert_exec(
                &mut sm,
                Yaml::Str(s.name.clone()),
                Self::generate_service(s, &extra, restart),
            );
            i = i + 1;
        }
        let nets = Self::collect_networks(services, &auto);
        let ghost smv = entries_model(sm@);
        assert(smv == services_map(sv, sv.len() as int, router_container@, strs_view(served@), restart@));
        let smm = mapping(sm);
        let mut compose: Vec<YamlEntry> = vec![str_entry("services", smm)];
        let ghost c0 = entries_model(compose@);
        assert(c0 =~= seq![(ys("services"@), YamlV::Mapping(smv))]);
        if nets.len() > 0 {
            let mut nm: Vec<YamlEntry> = Vec::new();
            let mut k: usize = 0;
            while k < nets.len()
                invariant
                    k <= nets.len(),
                    entries_model(nm@) == strs_view(nets@).take(k as int).map_values(
                        |n: Seq<char>| (ys(n), YamlV::Mapping(seq![])),
                    ),
                decreases nets.len() - k,
            {
                let ghost prev = entries_model(nm@);
                let empty: Vec<YamlEntry> = Vec::new();
                assert(entries_model(empty@) =~= Seq::<(YamlV, YamlV)>::empty());
                nm.push(YamlEntry { key: Yaml::Str(nets[k].clone()), value: mapping(empty) });
                assert(entries_model(nm@) =~= prev.push((ys(nets@[k as int]@), YamlV::Mapping(seq![]))));
                assert(strs_view(nets@).take(k as int + 1).map_values(
                    |n: Seq<char>| (ys(n), YamlV::Mapping(seq![])),
                ) =~= strs_view(nets@).take(k as int).map_values(
                    |n: Seq<char>| (ys(n), YamlV::Mapping(seq![])),
                ).push((ys(nets@[k as int]@), YamlV::Mapping(seq![]))));
                k = k + 1;
            }
            assert(strs_view(nets@).take(k as int) =~= strs_view(nets@));
            compose.push(str_entry("networks", mapping(nm)));
        }
        let ghost nv = strs_view(nets@);
        assert(entries_model(compose@) =~= c0 + entry_if(
            nv.len() > 0,
            "networks"@,
            YamlV::Mapping(nv.map_values(|n: Seq<char>| (ys(n), YamlV::Mapping(seq![])))),
        ));
        let mut result = mapping(compose);
        let ghost r0 = result.model();
        assert(sv.len() == services@.len());
        assert(r0 == YamlV::Mapping(
            seq![
                (
                    ys("services"@),
                    YamlV::Mapping(
                        services_map(sv, sv.len() as int, router_container@, strs_view(served@), restart@),
                    ),
                ),
            ] + entry_if(
                nv.len() > 0,
                "networks"@,
                YamlV::Mapping(nv.map_values(|n: Seq<char>| (ys(n), YamlV::Mapping(seq![])))),
            ),
        ));
        let mut j: usize = 0;
        while j < services.len()
            invariant
                j <= services.len(),
                sv == blocks_view(services@),
                result.model() == merge_raw_blocks(r0, sv, j as int),
            decreases services.len() - j,
        {
            let s = &services[j];
            assert(sv[j as int] == s@);
            match &s.raw_compose_block {
                Some(raw) => match parse_yaml(raw.as_str()) {
                    Ok(v) => deep_merge_yaml(&mut result, v),
                    Err(_) => {},
                },
                None => {},
            }
            j = j + 1;
        }
        result
    }
}

/// One line of `separate_block_entries`: the text so far, whether the section
/// is open, and whether its first child is still to come.
pub open spec fn block_sep_step(
    st: (Seq<char>, bool, bool),
    line: Seq<char>,
    header: Seq<char>,
    child_indent: nat,
) -> (Seq<char>, bool, bool) {
    let (out, in_section, first) = st;
    let trimmed = trim_start_class(line, CharClass::Whitespace);
    if trim(line) == header {
        (out + line + "\n"@, true, true)
    } else if in_section && indent_of(line) == 0 && trim(line).len() > 0 {
        (out + "\n"@ + line + "\n"@, false, first)
    } else if in_section && indent_of(line) == child_indent && trimmed.len() > 0 && trimmed[0]
        != '-' {
        (
            if first {
                out
            } else {
                out + "\n"@
            } + line + "\n"@,
            true,
            false,
        )
    } else {
        (out + line + "\n"@, in_section, first)
    }
}

/// After the first `n` lines.
pub open spec fn block_sep_fold(
    ls: Seq<Seq<char>>,
    n: int,
    header: Seq<char>,
    child_indent: nat,
) -> (Seq<char>, bool, bool)
    decreases n,
{
    if n <= 0 || n > ls.len() {
        (seq![], false, true)
    } else {
        block_sep_step(block_sep_fold(ls, n - 1, header, child_indent), ls[n - 1], header, child_indent)
    }
}

/// The YAML text with a blank line between the children of `parent:` (at
/// `child_indent`) and after the section; every line ends with a line feed.
pub open spec fn block_separated(yaml: Seq<char>, parent: Seq<char>, child_indent: nat) -> Seq<
    char,
> {
    let ls = lines(yaml);
    block_sep_fold(ls, ls.len() as int, parent + ":"@, child_indent).0
}

/// Inserts blank lines between the direct children of `parent_key` (see
/// `block_separated`).
pub fn separate_block_entries(yaml: &str, parent_key: &str, child_indent: usize) -> (r: String)
    ensures
        r@ == block_separated(yaml@, parent_key@, child_indent as nat),
{
    let mut header = chars_of(parent_key);
    append(&mut header, &lit(":"));
    let ls = lines_exec(&chars_of(yaml));
    let ghost lv = views(ls@);
    let nl = lit("\n");
    let mut out: Vec<char> = Vec::new();
    let mut in_section = false;
    let mut first = true;
    let mut i: usize = 0;
    while i < ls.len()
        invariant
            i <= ls.len(),
            lv == views(ls@),
            nl@ == "\n"@,
            (out@, in_section, first) == block_sep_fold(
                lv,
                i as int,
                header@,
                child_indent as nat,
            ),
        decreases ls.len() - i,
    {
        let line = &ls[i];
        assert(lv[i as int] == line@);
        let lead = skip_class_exec(line, 0, CharClass::Whitespace);
        proof {
            lemma_skip_class(line@, 0, CharClass::Whitespace);
        }
        let trimmed = slice_of(line, lead, line.len());
        let t = trim_exec(line);
        let ind = utf8_size_upto(&slice_of(line, 0, lead), child_indent);
        let is_zero = match ind {
            Some(n) => n == 0,
            None => false,
        };
        let is_child = match ind {
            Some(n) => n == child_indent,
            None => false,
        };
        if eq_chars(&t, &header) {
            in_section = true;
            first = true;
        } else if in_section && is_zero && t.len() > 0 {
            in_section = false;
            append(&mut out, &nl);
        } else if in_section && is_child && trimmed.len() > 0 && trimmed[0] != '-' {
            if !first {
                append(&mut out, &nl);
            }
            first = false;
        }
        append(&mut out, line);
        append(&mut out, &nl);
        i = i + 1;
    }
    string_of(&out)
}

/// The compose document as YAML text with the default restart policy
/// `unless-stopped` (see `generate_compose_yaml_with_restart`).
pub fn generate_compose_yaml(services: &[ServiceBlock], router_container: &str) -> (r: String)
    ensures
        r@ == block_separated(
            yaml_render(compose_config(blocks_view(services@), router_container@, "unless-stopped"@)),
            "services"@,
            2,
        ),
{
    generate_compose_yaml_with_restart(services, router_container, "unless-stopped")
}

/// The compose document as YAML text (see `compose_config`), each service with
/// the `restart` policy of the defaults, with a blank line between services.
pub fn generate_compose_yaml_with_restart(services: &[ServiceBlock], router_container: &str, restart: &str) -> (r: String)
    ensures
        r@ == block_separated(
            yaml_render(compose_config(blocks_view(services@), router_container@, restart@)),
            "services"@,
            2,
        ),
{
    let compose = ComposeGenerator::generate_with_restart(services, router_container, restart);
    let yaml = render_yaml(&compose);
    separate_block_entries(yaml.as_str(), "services", 2)
}

/// Every container that serves, other than the router container, gets its
/// own network `{name}-net`, which is among the automatic networks; and the
/// router container joins every network of such a container: its own ones and
/// its automatic one.
pub proof fn lemma_auto_networks(services: Seq<ServiceBlockV>, rc: Seq<char>, i: int, k: int, n: Seq<char>)
    requires
        0 <= i < services.len(),
        0 <= k < services.len(),
        services[i].serve.len() > 0,
        services[i].name != rc,
        services[k].name == rc,
        services[i].networks.push(auto_net(services[i].name)).contains(n),
    ensures
        auto_nets(services, services.len() as int, rc).contains(auto_net(services[i].name)),
        extra_networks(services[i], rc, served_nets(services, services.len() as int, rc)) == seq![
            auto_net(services[i].name),
        ],
        (services[k].networks + extra_networks(
            services[k],
            rc,
            served_nets(services, services.len() as int, rc),
        )).contains(n),
{
    lemma_auto_nets_grow(services, rc, i + 1, services.len() as int);
    let a = auto_nets(services, i, rc);
    assert(auto_nets(services, i + 1, rc) == a + seq![auto_net(services[i].name)]);
    assert(auto_nets(services, i + 1, rc)[a.len() as int] == auto_net(services[i].name));
    lemma_served_nets_grow(services, rc, i + 1, services.len() as int);
    let b = served_nets(services, i, rc);
    let own = services[i].networks.push(auto_net(services[i].name));
    assert(served_nets(services, i + 1, rc) == b + own);
    let j = choose|j: int| 0 <= j < own.len() && own[j] == n;
    assert(served_nets(services, i + 1, rc)[b.len() + j] == n);
    let all = served_nets(services, services.len() as int, rc);
    assert(all[b.len() + j] == n);
    assert(all.contains(n));
    lemma_fresh_names_keep(all, services[k].networks, n);
    let mine = services[k].networks;
    let fresh = fresh_names(all, mine);
    if mine.contains(n) {
        let q = choose|q: int| 0 <= q < mine.len() && mine[q] == n;
        assert((mine + fresh)[q] == n);
    } else {
        let q = choose|q: int| 0 <= q < fresh.len() && fresh[q] == n;
        assert((mine + fresh)[mine.len() + q] == n);
    }
}

/// The networks of the serving containers of a prefix are kept by longer prefixes.
pub proof fn lemma_served_nets_grow(services: Seq<ServiceBlockV>, rc: Seq<char>, n: int, m: int)
    requires
        0 <= n <= m <= services.len(),
    ensures
        served_nets(services, n, rc).is_prefix_of(served_nets(services, m, rc)),
    decreases m - n,
{
    if n < m {
        lemma_served_nets_grow(services, rc, n, m - 1);
        assert(served_nets(services, m - 1, rc).is_prefix_of(served_nets(services, m, rc)));
    }
}

/// A name of `xs` is in `seen` or kept by `fresh_names`.
pub proof fn lemma_fresh_names_keep(xs: Seq<Seq<char>>, seen: Seq<Seq<char>>, x: Seq<char>)
    requires
        xs.contains(x),
    ensures
        seen.contains(x) || fresh_names(xs, seen).contains(x),
    decreases xs.len(),
{
    let r = fresh_names(xs.drop_last(), seen);
    if xs.last() == x {
        if !seen.contains(x) && !r.contains(x) {
            assert(fresh_names(xs, seen) == r.push(x));
            assert(fresh_names(xs, seen)[r.len() as int] == x);
        }
    } else {
        let j = choose|j: int| 0 <= j < xs.len() && xs[j] == x;
        assert(xs.drop_last()[j] == x);
        lemma_fresh_names_keep(xs.drop_last(), seen, x);
        if !seen.contains(x) {
            let q = choose|q: int| 0 <= q < r.len() && r[q] == x;
            if !(seen.contains(xs.last()) || r.contains(xs.last())) {
                assert(fresh_names(xs, seen)[q] == x);
            }
        }
    }
}

/// The automatic networks of a prefix are kept by longer prefixes.
pub proof fn lemma_auto_nets_grow(services: Seq<ServiceBlockV>, rc: Seq<char>, n: int, m: int)
    requires
        0 <= n <= m <= services.len(),
    ensures
        auto_nets(services, n, rc).is_prefix_of(auto_nets(services, m, rc)),
    decreases m - n,
{
    if n < m {
        lemma_auto_nets_grow(services, rc, n, m - 1);
        assert(auto_nets(services, m - 1, rc).is_prefix_of(auto_nets(services, m, rc)));
    }
}

/// No entry of `es` has the key `k`.
pub open spec fn keys_avoid(es: Seq<(YamlV, YamlV)>, k: YamlV) -> bool {
    forall|j: int| 0 <= j < es.len() ==> (#[trigger] es[j]).0 != k
}

pub proof fn lemma_insert_all_append(
    m: Seq<(YamlV, YamlV)>,
    a: Seq<(YamlV, YamlV)>,
    b: Seq<(YamlV, YamlV)>,
)
    ensures
        insert_all(m, a + b) == insert_all(insert_all(m, a), b),
    decreases b.len(),
{
    if b.len() == 0 {
        assert(a + b =~= a);
    } else {
        assert((a + b).drop_last() =~= a + b.drop_last());
        lemma_insert_all_append(m, a, b.drop_last());
    }
}

/// Entries with other keys leave what a key reads.
pub proof fn lemma_insert_all_avoid(m: Seq<(YamlV, YamlV)>, es: Seq<(YamlV, YamlV)>, k: YamlV)
    requires
        keys_avoid(es, k),
    ensures
        map_get(insert_all(m, es), k) == map_get(m, k),
    decreases es.len(),
{
    if es.len() > 0 {
        assert(keys_avoid(es.drop_last(), k)) by {
            assert forall|j: int| 0 <= j < es.drop_last().len() implies (#[trigger] es.drop_last()[j]).0 != k by {
                assert(es.drop_last()[j] == es[j]);
            }
        }
        lemma_insert_all_avoid(m, es.drop_last(), k);
        assert(es[es.len() - 1].0 != k);
        lemma_map_get_insert_other(insert_all(m, es.drop_last()), es.last().0, es.last().1, k);
    }
}

pub proof fn lemma_avoid_concat(a: Seq<(YamlV, YamlV)>, b: Seq<(YamlV, YamlV)>, k: YamlV)
    requires
        keys_avoid(a, k),
        keys_avoid(b, k),
    ensures
        keys_avoid(a + b, k),
{
    assert forall|j: int| 0 <= j < (a + b).len() implies (#[trigger] (a + b)[j]).0 != k by {
        if j < a.len() {
            assert((a + b)[j] == a[j]);
        } else {
            assert((a + b)[j] == b[j - a.len()]);
        }
    }
}

/// The keys of the entries after `image`, `container_name` and `restart`.
pub open spec fn tail_entries(s: ServiceBlockV, extra: Seq<Seq<char>>) -> Seq<(YamlV, YamlV)> {
    let nets = s.networks + extra;
    let lim = match s.limit {
        Some(l) => seq![(ys("mem_limit"@), ys(l.memory)), (ys("cpus"@), ys(cpus_text(l.cpus)))],
        None => seq![],
    };
    lim + entry_if(nets.len() > 0, "networks"@, str_seq(nets)) + entry_if(
        s.volumes.len() > 0,
        "volumes"@,
        str_seq(s.volumes.map_values(|v: VolumeV| volume_text(v))),
    ) + entry_if(
        s.expose.len() > 0,
        "expose"@,
        YamlV::Sequence(s.expose.map_values(|p: u16| ys(dec(p as nat)))),
    ) + match s.user {
        Some(u) => seq![(ys("user"@), ys(u))],
        None => seq![],
    } + entry_if(
        s.depends_on.len() > 0,
        "depends_on"@,
        YamlV::Mapping(insert_all(seq![], depends_entries(s.depends_on))),
    ) + match s.healthcheck {
        Some(h) => seq![(ys("healthcheck"@), YamlV::Mapping(healthcheck_entries(h)))],
        None => seq![],
    } + env_entries(s) + s.raw.map_values(|e: (Seq<char>, YamlV)| (ys(e.0), e.1))
}

/// A key that none of the fixed entries after `restart` uses and no raw field
/// sets is absent from those entries.
proof fn lemma_tail_avoids(s: ServiceBlockV, extra: Seq<Seq<char>>, k: Seq<char>)
    requires
        k != "mem_limit"@,
        k != "cpus"@,
        k != "networks"@,
        k != "volumes"@,
        k != "expose"@,
        k != "user"@,
        k != "depends_on"@,
        k != "healthcheck"@,
        k != "environment"@,
        k != "env_file"@,
        forall|j: int| 0 <= j < s.raw.len() ==> (#[trigger] s.raw[j]).0 != k,
    ensures
        keys_avoid(tail_entries(s, extra), ys(k)),
{
    let nets = s.networks + extra;
    let p1 = match s.limit {
        Some(l) => seq![(ys("mem_limit"@), ys(l.memory)), (ys("cpus"@), ys(cpus_text(l.cpus)))],
        None => seq![],
    };
    let p2 = entry_if(nets.len() > 0, "networks"@, str_seq(nets));
    let p3 = entry_if(
        s.volumes.len() > 0,
        "volumes"@,
        str_seq(s.volumes.map_values(|v: VolumeV| volume_text(v))),
    );
    let p4 = entry_if(
        s.expose.len() > 0,
        "expose"@,
        YamlV::Sequence(s.expose.map_values(|p: u16| ys(dec(p as nat)))),
    );
    let p5 = match s.user {
        Some(u) => seq![(ys("user"@), ys(u))],
        None => seq![],
    };
    let p6 = entry_if(
        s.depends_on.len() > 0,
        "depends_on"@,
        YamlV::Mapping(insert_all(seq![], depends_entries(s.depends_on))),
    );
    let p7 = match s.healthcheck {
        Some(h) => seq![(ys("healthcheck"@), YamlV::Mapping(healthcheck_entries(h)))],
        None => seq![],
    };
    let p8 = env_entries(s);
    let p9 = s.raw.map_values(|e: (Seq<char>, YamlV)| (ys(e.0), e.1));
    assert(keys_avoid(p1, ys(k)));
    assert(keys_avoid(p2, ys(k)));
    assert(keys_avoid(p3, ys(k)));
    assert(keys_avoid(p4, ys(k)));
    assert(keys_avoid(p5, ys(k)));
    assert(keys_avoid(p6, ys(k)));
    assert(keys_avoid(p7, ys(k)));
    assert(keys_avoid(p8, ys(k))) by {
        if s.env_from.len() > 0 || s.raw.len() > 0 {
            let env = insert_all(seq![], inline_env(s.env_from));
            let files = env_file_paths(s.name, s.env_from) + if has_secret_inline(s.env_from) {
                seq!["env/"@ + s.name + ".secrets.env"@]
            } else {
                seq![]
            };
            let a = entry_if(env.len() > 0, "environment"@, YamlV::Mapping(env));
            let b = entry_if(files.len() > 0, "env_file"@, str_seq(files));
            assert(keys_avoid(a, ys(k)));
            assert(keys_avoid(b, ys(k)));
            lemma_avoid_concat(a, b, ys(k));
        }
    }
    assert(keys_avoid(p9, ys(k))) by {
        assert forall|j: int| 0 <= j < p9.len() implies (#[trigger] p9[j]).0 != ys(k) by {
            assert(s.raw[j].0 != k);
        }
    }
    lemma_avoid_concat(p1, p2, ys(k));
    lemma_avoid_concat(p1 + p2, p3, ys(k));
    lemma_avoid_concat(p1 + p2 + p3, p4, ys(k));
    lemma_avoid_concat(p1 + p2 + p3 + p4, p5, ys(k));
    lemma_avoid_concat(p1 + p2 + p3 + p4 + p5, p6, ys(k));
    lemma_avoid_concat(p1 + p2 + p3 + p4 + p5 + p6, p7, ys(k));
    lemma_avoid_concat(p1 + p2 + p3 + p4 + p5 + p6 + p7, p8, ys(k));
    lemma_avoid_concat(p1 + p2 + p3 + p4 + p5 + p6 + p7 + p8, p9, ys(k));
}

/// The three entries every service starts with.
pub open spec fn head_of(s: ServiceBlockV, restart: Seq<char>) -> Seq<(YamlV, YamlV)> {
    seq![
        (ys("image"@), ys(s.image)),
        (ys("container_name"@), ys(s.name)),
        (ys("restart"@), ys(restart)),
    ]
}

proof fn lemma_neq_len(a: Seq<char>, b: Seq<char>)
    requires
        a.len() != b.len(),
    ensures
        a != b,
{
}

proof fn lemma_head_reads(s: ServiceBlockV, restart: Seq<char>)
    ensures
        map_get(insert_all(seq![], head_of(s, restart)), ys("restart"@)) == Some(ys(restart)),
        map_get(insert_all(seq![], head_of(s, restart)), ys("container_name"@)) == Some(ys(s.name)),
{
    reveal_strlit("restart");
    reveal_strlit("container_name");
    let head = head_of(s, restart);
    assert(head.drop_last().drop_last().drop_last() =~= Seq::<(YamlV, YamlV)>::empty());
    assert(head.drop_last().drop_last() =~= seq![(ys("image"@), ys(s.image))]);
    assert(head.drop_last() =~= seq![(ys("image"@), ys(s.image)), (ys("container_name"@), ys(s.name))]);
    let h1 = insert_all(seq![], head.drop_last().drop_last());
    let h2 = insert_all(seq![], head.drop_last());
    lemma_map_get_insert(h2, ys("restart"@), ys(restart));
    lemma_map_get_insert(h1, ys("container_name"@), ys(s.name));
    assert("container_name"@ != "restart"@) by {
        assert("container_name"@.len() != "restart"@.len());
    }
    lemma_map_get_insert_other(h2, ys("restart"@), ys(restart), ys("container_name"@));
}

/// Every generated service gets the restart policy of the defaults
/// (`unless-stopped` unless configured otherwise), unless a raw field of the
/// block sets `restart`.
pub proof fn lemma_service_restart(s: ServiceBlockV, extra: Seq<Seq<char>>, restart: Seq<char>)
    requires
        forall|j: int| 0 <= j < s.raw.len() ==> (#[trigger] s.raw[j]).0 != "restart"@,
    ensures
        map_get(insert_all(seq![], service_entries(s, extra, restart)), ys("restart"@)) == Some(
            ys(restart),
        ),
{
    reveal_strlit("restart");
    reveal_strlit("mem_limit");
    reveal_strlit("cpus");
    reveal_strlit("networks");
    reveal_strlit("volumes");
    reveal_strlit("expose");
    reveal_strlit("user");
    reveal_strlit("depends_on");
    reveal_strlit("healthcheck");
    reveal_strlit("environment");
    reveal_strlit("env_file");
    lemma_insert_all_append(seq![], head_of(s, restart), tail_entries(s, extra));
    lemma_head_reads(s, restart);
    assert("restart"@ != "volumes"@) by {
        assert("restart"@[0] != "volumes"@[0]);
    }
    lemma_neq_len("restart"@, "mem_limit"@);
    lemma_neq_len("restart"@, "cpus"@);
    lemma_neq_len("restart"@, "networks"@);
    lemma_neq_len("restart"@, "expose"@);
    lemma_neq_len("restart"@, "user"@);
    lemma_neq_len("restart"@, "depends_on"@);
    lemma_neq_len("restart"@, "healthcheck"@);
    lemma_neq_len("restart"@, "environment"@);
    lemma_neq_len("restart"@, "env_file"@);
    lemma_tail_avoids(s, extra, "restart"@);
    lemma_insert_all_avoid(insert_all(seq![], head_of(s, restart)), tail_entries(s, extra), ys("restart"@));
}

/// Every generated service is named after its block (`container_name`),
/// unless a raw field of the block sets that key.
pub proof fn lemma_service_container_name(s: ServiceBlockV, extra: Seq<Seq<char>>, restart: Seq<char>)
    requires
        forall|j: int| 0 <= j < s.raw.len() ==> (#[trigger] s.raw[j]).0 != "container_name"@,
    ensures
        map_get(insert_all(seq![], service_entries(s, extra, restart)), ys("container_name"@)) == Some(
            ys(s.name),
        ),
{
    reveal_strlit("container_name");
    reveal_strlit("mem_limit");
    reveal_strlit("cpus");
    reveal_strlit("networks");
    reveal_strlit("volumes");
    reveal_strlit("expose");
    reveal_strlit("user");
    reveal_strlit("depends_on");
    reveal_strlit("healthcheck");
    reveal_strlit("environment");
    reveal_strlit("env_file");
    lemma_insert_all_append(seq![], head_of(s, restart), tail_entries(s, extra));
    lemma_head_reads(s, restart);
    lemma_neq_len("container_name"@, "mem_limit"@);
    lemma_neq_len("container_name"@, "cpus"@);
    lemma_neq_len("container_name"@, "networks"@);
    lemma_neq_len("container_name"@, "volumes"@);
    lemma_neq_len("container_name"@, "expose"@);
    lemma_neq_len("container_name"@, "user"@);
    lemma_neq_len("container_name"@, "depends_on"@);
    lemma_neq_len("container_name"@, "healthcheck"@);
    lemma_neq_len("container_name"@, "environment"@);
    lemma_neq_len("container_name"@, "env_file"@);
    lemma_tail_avoids(s, extra, "container_name"@);
    lemma_insert_all_avoid(
        insert_all(seq![], head_of(s, restart)),
        tail_entries(s, extra),
        ys("container_name"@),
    );
}

/// `dedup_adjacent` keeps exactly the elements of its input.
pub proof fn lemma_dedup_contains(t: Seq<Seq<char>>, x: Seq<char>)
    ensures
        dedup_adjacent(t).contains(x) <==> t.contains(x),
    decreases t.len(),
{
    if t.len() > 0 {
        lemma_dedup_contains(t.drop_last(), x);
        let r = dedup_adjacent(t.drop_last());
        if t.drop_last().contains(x) {
            let k = choose|k: int| 0 <= k < t.drop_last().len() && t.drop_last()[k] == x;
            assert(t[k] == x);
        }
        if t.contains(x) {
            let k = choose|k: int| 0 <= k < t.len() && t[k] == x;
            if k < t.len() - 1 {
                assert(t.drop_last()[k] == x);
            }
        }
        if r.len() > 0 && r.last() == t.last() {
            if x == t.last() {
                assert(r[r.len() - 1] == x);
            }
        } else {
            assert(r.push(t.last())[r.len() as int] == t.last());
            if r.contains(x) {
                let k = choose|k: int| 0 <= k < r.len() && r[k] == x;
                assert(r.push(t.last())[k] == x);
            }
            if r.push(t.last()).contains(x) {
                let k = choose|k: int| 0 <= k < r.len() + 1 && r.push(t.last())[k] == x;
                if k < r.len() {
                    assert(r[k] == x);
                }
            }
        }
    }
}

/// On a sorted input, `dedup_adjacent` gives a strictly increasing sequence.
pub proof fn lemma_dedup_strict(t: Seq<Seq<char>>)
    requires
        forall|i: int, j: int| 0 <= i < j < t.len() ==> lex_le(#[trigger] t[i], #[trigger] t[j]),
    ensures
        forall|i: int, j: int|
            0 <= i < j < dedup_adjacent(t).len() ==> lex_le(
                #[trigger] dedup_adjacent(t)[i],
                #[trigger] dedup_adjacent(t)[j],
            ) && dedup_adjacent(t)[i] != dedup_adjacent(t)[j],
    decreases t.len(),
{
    if t.len() > 0 {
        let t0 = t.drop_last();
        assert forall|i: int, j: int| 0 <= i < j < t0.len() implies lex_le(
            #[trigger] t0[i],
            #[trigger] t0[j],
        ) by {
            assert(t0[i] == t[i] && t0[j] == t[j]);
        }
        lemma_dedup_strict(t0);
        let r = dedup_adjacent(t0);
        if !(r.len() > 0 && r.last() == t.last()) {
            let n = r.push(t.last());
            assert forall|k: int| 0 <= k < r.len() implies lex_le(#[trigger] r[k], t.last()) by {
                lemma_dedup_contains(t0, r[k]);
                assert(r.contains(r[k]));
                let m = choose|m: int| 0 <= m < t0.len() && t0[m] == r[k];
                assert(t[m] == r[k]);
                crate::text::lemma_lex_refl(t.last());
            }
            assert forall|i: int, j: int| 0 <= i < j < n.len() implies lex_le(
                #[trigger] n[i],
                #[trigger] n[j],
            ) && n[i] != n[j] by {
                if j < r.len() {
                    assert(n[i] == r[i] && n[j] == r[j]);
                } else {
                    assert(n[i] == r[i] && n[j] == t.last());
                    if r[i] == t.last() {
                        let l = r.len() - 1;
                        assert(lex_le(r[l], t.last()));
                        if i < l {
                            assert(lex_le(r[i], r[l]) && r[i] != r[l]);
                            lemma_lex_antisym(r[i], r[l]);
                        }
                    }
                }
            }
        }
    }
}

/// The networks list holds every name once, in `str` order: strictly
/// increasing, with exactly the names given.
pub proof fn lemma_sorted_distinct(names: Seq<Seq<char>>)
    ensures
        forall|i: int, j: int|
            0 <= i < j < sorted_distinct(names).len() ==> lex_le(
                #[trigger] sorted_distinct(names)[i],
                #[trigger] sorted_distinct(names)[j],
            ) && sorted_distinct(names)[i] != sorted_distinct(names)[j],
        forall|x: Seq<char>| #[trigger] sorted_distinct(names).contains(x) <==> names.contains(x),
{
    broadcast use vstd::seq_lib::group_to_multiset_ensures;

    lemma_lex_total_ordering();
    let t = names.sort_by(lex_leq());
    names.lemma_sort_by_ensures(lex_leq());
    assert forall|i: int, j: int| 0 <= i < j < t.len() implies lex_le(#[trigger] t[i], #[trigger] t[j]) by {
        assert(lex_leq()(t[i], t[j]));
    }
    lemma_dedup_strict(t);
    assert forall|x: Seq<char>| #[trigger] sorted_distinct(names).contains(x) <==> names.contains(x) by {
        lemma_dedup_contains(t, x);
        assert(t.to_multiset().count(x) == names.to_multiset().count(x));
    }
}

/// The service names of the first `n` services, each once, in the order
/// they first occur.
pub open spec fn distinct_names(services: Seq<ServiceBlockV>, n: int) -> Seq<Seq<char>>
    decreases n,
{
    if n <= 0 || n > services.len() {
        seq![]
    } else {
        let r = distinct_names(services, n - 1);
        if r.contains(services[n - 1].name) {
            r
        } else {
            r.push(services[n - 1].name)
        }
    }
}

/// The keys of a mapping's entries.
pub open spec fn keys_of(m: Seq<(YamlV, YamlV)>) -> Seq<YamlV> {
    m.map_values(|e: (YamlV, YamlV)| e.0)
}

proof fn lemma_services_map_keys(
    services: Seq<ServiceBlockV>,
    n: int,
    rc: Seq<char>,
    auto: Seq<Seq<char>>,
    restart: Seq<char>,
)
    requires
        0 <= n <= services.len(),
    ensures
        keys_of(services_map(services, n, rc, auto, restart)) == distinct_names(services, n).map_values(
            |x: Seq<char>| ys(x),
        ),
    decreases n,
{
    if n > 0 {
        lemma_services_map_keys(services, n - 1, rc, auto, restart);
        let m = services_map(services, n - 1, rc, auto, restart);
        let r = distinct_names(services, n - 1);
        let name = services[n - 1].name;
        let k = ys(name);
        let v = service_value(services[n - 1], extra_networks(services[n - 1], rc, auto), restart);
        crate::yaml::lemma_key_pos_from(m, k, 0);
        assert(keys_of(m).len() == m.len());
        assert forall|j: int| 0 <= j < m.len() implies #[trigger] m[j].0 == ys(r[j]) by {
            assert(keys_of(m)[j] == m[j].0);
            assert(r.map_values(|x: Seq<char>| ys(x))[j] == ys(r[j]));
        }
        if r.contains(name) {
            let j = choose|j: int| 0 <= j < r.len() && r[j] == name;
            assert(m[j].0 == k);
            let i = crate::yaml::key_pos(m, k).unwrap();
            assert(keys_of(map_insert(m, k, v)) =~= keys_of(m));
        } else {
            assert forall|j: int| 0 <= j < m.len() implies m[j].0 != k by {
                assert(m[j].0 == ys(r[j]));
                assert(r[j] != name);
            }
            assert(crate::yaml::key_pos(m, k) is None);
            assert(keys_of(map_insert(m, k, v)) =~= keys_of(m).push(k));
            assert(r.push(name).map_values(|x: Seq<char>| ys(x)) =~= r.map_values(|x: Seq<char>| ys(x)).push(k));
        }
    }
}

proof fn lemma_no_raw_blocks(v: YamlV, services: Seq<ServiceBlockV>, n: int)
    requires
        forall|i: int| 0 <= i < services.len() ==> (#[trigger] services[i]).raw_compose_block is None,
    ensures
        merge_raw_blocks(v, services, n) == v,
    decreases n,
{
    if 0 < n <= services.len() {
        lemma_no_raw_blocks(v, services, n - 1);
    }
}

/// The layout of a compose document for services without raw YAML blocks:
/// `services` first, holding one key per distinct service name in the order
/// the names first occur; then `networks` exactly when there are explicit or
/// automatic networks, holding each of them once, in strictly increasing
/// `str` order, each mapped to an empty mapping.
pub proof fn lemma_compose_layout(services: Seq<ServiceBlockV>, rc: Seq<char>, restart: Seq<char>)
    requires
        forall|i: int| 0 <= i < services.len() ==> (#[trigger] services[i]).raw_compose_block is None,
    ensures
        ({
            let served = served_nets(services, services.len() as int, rc);
            let all = explicit_networks(services, services.len() as int) + auto_nets(
                services,
                services.len() as int,
                rc,
            );
            let nets = sorted_distinct(all);
            let sm = services_map(services, services.len() as int, rc, served, restart);
            &&& compose_config(services, rc, restart) == YamlV::Mapping(
                seq![(ys("services"@), YamlV::Mapping(sm))] + entry_if(
                    all.len() > 0,
                    "networks"@,
                    YamlV::Mapping(nets.map_values(|n: Seq<char>| (ys(n), YamlV::Mapping(seq![])))),
                ),
            )
            &&& keys_of(sm) == distinct_names(services, services.len() as int).map_values(
                |x: Seq<char>| ys(x),
            )
            &&& forall|i: int, j: int|
                0 <= i < j < nets.len() ==> lex_le(#[trigger] nets[i], #[trigger] nets[j])
                    && nets[i] != nets[j]
            &&& forall|x: Seq<char>| #[trigger] nets.contains(x) <==> all.contains(x)
        }),
{
    let served = served_nets(services, services.len() as int, rc);
    let all = explicit_networks(services, services.len() as int) + auto_nets(
        services,
        services.len() as int,
        rc,
    );
    let nets = sorted_distinct(all);
    let sm = services_map(services, services.len() as int, rc, served, restart);
    let doc = seq![(ys("services"@), YamlV::Mapping(sm))] + entry_if(
        nets.len() > 0,
        "networks"@,
        YamlV::Mapping(nets.map_values(|n: Seq<char>| (ys(n), YamlV::Mapping(seq![])))),
    );
    lemma_no_raw_blocks(YamlV::Mapping(doc), services, services.len() as int);
    lemma_services_map_keys(services, services.len() as int, rc, served, restart);
    lemma_sorted_distinct(all);
    if all.len() > 0 {
        assert(all.contains(all[0]));
        assert(nets.contains(all[0]));
    } else {
        if nets.len() > 0 {
            assert(nets.contains(nets[0]));
        }
    }
}

/// The `condition` mapping of a dependency in the compose file.
pub open spec fn condition_entry(c: DependencyCondition) -> YamlV {
    YamlV::Mapping(
        seq![
            (
                ys("condition"@),
                ys(
                    match c {
                        DependencyCondition::Started => "service_started"@,
                        DependencyCondition::Healthy => "service_healthy"@,
                    },
                ),
            ),
        ],
    )
}

/// Reading `k` after inserting entries with `(k, v)` among them, where no later
/// entry has the key `k`, gives `v`.
proof fn lemma_insert_all_single(
    m: Seq<(YamlV, YamlV)>,
    a: Seq<(YamlV, YamlV)>,
    k: YamlV,
    v: YamlV,
    b: Seq<(YamlV, YamlV)>,
)
    requires
        keys_avoid(b, k),
    ensures
        map_get(insert_all(m, a + seq![(k, v)] + b), k) == Some(v),
{
    lemma_insert_all_append(m, a + seq![(k, v)], b);
    assert((a + seq![(k, v)]).drop_last() =~= a);
    assert((a + seq![(k, v)]).last() == (k, v));
    lemma_map_get_insert(insert_all(m, a), k, v);
    lemma_insert_all_avoid(insert_all(m, a + seq![(k, v)]), b, k);
}

/// Each dependency of a service, where no later one names the same service,
/// appears in its `depends_on` mapping with condition `service_started` when
/// the service must have started and `service_healthy` when it must be
/// healthy.
pub proof fn lemma_depends_condition(ds: Seq<DependencyV>, j: int)
    requires
        0 <= j < ds.len(),
        forall|i: int| j < i < ds.len() ==> (#[trigger] ds[i]).service != ds[j].service,
    ensures
        map_get(insert_all(seq![], depends_entries(ds)), ys(ds[j].service)) == Some(
            condition_entry(ds[j].condition),
        ),
{
    let es = depends_entries(ds);
    let k = ys(ds[j].service);
    let a = es.subrange(0, j);
    let b = es.subrange(j + 1, es.len() as int);
    assert(es[j] == (k, condition_entry(ds[j].condition)));
    assert(es =~= a + seq![es[j]] + b);
    assert(keys_avoid(b, k)) by {
        assert forall|i: int| 0 <= i < b.len() implies (#[trigger] b[i]).0 != k by {
            assert(b[i] == es[j + 1 + i]);
            assert(ds[j + 1 + i].service != ds[j].service);
        }
    }
    lemma_insert_all_single(seq![], a, k, condition_entry(ds[j].condition), b);
}

/// In the compose definition of a service, the `depends_on` mapping holds each
/// dependency (where no later one names the same service) with condition
/// `service_started` or `service_healthy` as it asks, unless a raw field of the
/// block sets `depends_on`.
#[verifier::spinoff_prover]
#[verifier::rlimit(60)]
pub proof fn lemma_service_depends_condition(
    s: ServiceBlockV,
    extra: Seq<Seq<char>>,
    restart: Seq<char>,
    j: int,
)
    requires
        0 <= j < s.depends_on.len(),
        forall|i: int| j < i < s.depends_on.len() ==> (#[trigger] s.depends_on[i]).service
            != s.depends_on[j].service,
        forall|i: int| 0 <= i < s.raw.len() ==> (#[trigger] s.raw[i]).0 != "depends_on"@,
    ensures
        map_get(insert_all(seq![], service_entries(s, extra, restart)), ys("depends_on"@)) == Some(
            YamlV::Mapping(insert_all(seq![], depends_entries(s.depends_on))),
        ),
        map_get(insert_all(seq![], depends_entries(s.depends_on)), ys(s.depends_on[j].service))
            == Some(condition_entry(s.depends_on[j].condition)),
{
    reveal_strlit("image");
    reveal_strlit("container_name");
    reveal_strlit("restart");
    reveal_strlit("mem_limit");
    reveal_strlit("cpus");
    reveal_strlit("networks");
    reveal_strlit("volumes");
    reveal_strlit("expose");
    reveal_strlit("user");
    reveal_strlit("depends_on");
    reveal_strlit("healthcheck");
    reveal_strlit("environment");
    reveal_strlit("env_file");
    lemma_depends_condition(s.depends_on, j);
    let k = ys("depends_on"@);
    let v = YamlV::Mapping(insert_all(seq![], depends_entries(s.depends_on)));
    let nets = s.networks + extra;
    let p1 = match s.limit {
        Some(l) => seq![(ys("mem_limit"@), ys(l.memory)), (ys("cpus"@), ys(cpus_text(l.cpus)))],
        None => seq![],
    };
    let p2 = entry_if(nets.len() > 0, "networks"@, str_seq(nets));
    let p3 = entry_if(
        s.volumes.len() > 0,
        "volumes"@,
        str_seq(s.volumes.map_values(|x: VolumeV| volume_text(x))),
    );
    let p4 = entry_if(
        s.expose.len() > 0,
        "expose"@,
        YamlV::Sequence(s.expose.map_values(|p: u16| ys(dec(p as nat)))),
    );
    let p5 = match s.user {
        Some(u) => seq![(ys("user"@), ys(u))],
        None => seq![],
    };
    let p7 = match s.healthcheck {
        Some(h) => seq![(ys("healthcheck"@), YamlV::Mapping(healthcheck_entries(h)))],
        None => seq![],
    };
    let p8 = env_entries(s);
    let p9 = s.raw.map_values(|e: (Seq<char>, YamlV)| (ys(e.0), e.1));
    let head = head_of(s, restart);
    let t5 = p1 + p2 + p3 + p4 + p5;
    let t6 = t5 + seq![(k, v)];
    assert(entry_if(s.depends_on.len() > 0, "depends_on"@, v) == seq![(k, v)]);
    assert(tail_entries(s, extra) == t6 + p7 + p8 + p9);
    lemma_p8_avoids(s, k);
    assert(keys_avoid(p7, k)) by {
        lemma_neq_len("depends_on"@, "healthcheck"@);
    }
    assert(keys_avoid(p9, k)) by {
        assert forall|i: int| 0 <= i < p9.len() implies (#[trigger] p9[i]).0 != k by {
            assert(s.raw[i].0 != "depends_on"@);
        }
    }
    let m = insert_all(seq![], head);
    lemma_insert_all_append(seq![], head, tail_entries(s, extra));
    lemma_get_after(m, t6 + p7 + p8, p9, k);
    lemma_get_after(m, t6 + p7, p8, k);
    lemma_get_after(m, t6, p7, k);
    assert(t6.drop_last() =~= t5);
    assert(t6.last() == (k, v));
    lemma_map_get_insert(insert_all(m, t5), k, v);
}

/// Entries with other keys after `x` leave what `k` reads.
proof fn lemma_get_after(m: Seq<(YamlV, YamlV)>, x: Seq<(YamlV, YamlV)>, y: Seq<(YamlV, YamlV)>, k: YamlV)
    requires
        keys_avoid(y, k),
    ensures
        map_get(insert_all(m, x + y), k) == map_get(insert_all(m, x), k),
{
    lemma_insert_all_append(m, x, y);
    lemma_insert_all_avoid(insert_all(m, x), y, k);
}

/// The `environment` and `env_file` entries never have the key `depends_on`.
proof fn lemma_p8_avoids(s: ServiceBlockV, k: YamlV)
    requires
        k == ys("depends_on"@),
    ensures
        keys_avoid(env_entries(s), k),
{
    reveal_strlit("depends_on");
    reveal_strlit("environment");
    reveal_strlit("env_file");
    lemma_neq_len("depends_on"@, "environment"@);
    lemma_neq_len("depends_on"@, "env_file"@);
    if s.env_from.len() > 0 || s.raw.len() > 0 {
        let env = insert_all(seq![], inline_env(s.env_from));
        let files = env_file_paths(s.name, s.env_from) + if has_secret_inline(s.env_from) {
            seq!["env/"@ + s.name + ".secrets.env"@]
        } else {
            seq![]
        };
        let a = entry_if(env.len() > 0, "environment"@, YamlV::Mapping(env));
        let b = entry_if(files.len() > 0, "env_file"@, str_seq(files));
        assert(keys_avoid(a, k));
        assert(keys_avoid(b, k));
        lemma_avoid_concat(a, b, k);
    }
}

/// The `services` mapping holds, under a service's name, the definition of
/// the last service with that name.
pub proof fn lemma_services_map_value(
    services: Seq<ServiceBlockV>,
    n: int,
    rc: Seq<char>,
    auto: Seq<Seq<char>>,
    restart: Seq<char>,
    i: int,
)
    requires
        0 <= i < n <= services.len(),
        forall|j: int| i < j < n ==> (#[trigger] services[j]).name != services[i].name,
    ensures
        map_get(services_map(services, n, rc, auto, restart), ys(services[i].name)) == Some(
            service_value(services[i], extra_networks(services[i], rc, auto), restart),
        ),
    decreases n,
{
    let prev = services_map(services, n - 1, rc, auto, restart);
    let s = services[n - 1];
    let v = service_value(s, extra_networks(s, rc, auto), restart);
    if i == n - 1 {
        lemma_map_get_insert(prev, ys(s.name), v);
    } else {
        lemma_services_map_value(services, n - 1, rc, auto, restart, i);
        assert(s.name != services[i].name);
        lemma_map_get_insert_other(prev, ys(s.name), v, ys(services[i].name));
    }
}

/// The inline variables of two lists in turn are those of each.
pub proof fn lemma_inline_env_concat(a: Seq<EnvSourceV>, b: Seq<EnvSourceV>)
    ensures
        inline_env(a + b) == inline_env(a) + inline_env(b),
    decreases b.len(),
{
    if b.len() == 0 {
        assert(a + b =~= a);
        assert(inline_env(b) =~= Seq::<(YamlV, YamlV)>::empty());
        assert(inline_env(a) + inline_env(b) =~= inline_env(a));
    } else {
        assert((a + b).drop_last() =~= a + b.drop_last());
        assert((a + b).last() == b.last());
        lemma_inline_env_concat(a, b.drop_last());
        assert(inline_env(a + b) =~= inline_env(a) + inline_env(b));
    }
}

/// No inline variable of `es` has the name `k`.
pub open spec fn no_inline_named(es: Seq<EnvSourceV>, k: Seq<char>) -> bool {
    forall|m: int| 0 <= m < es.len() ==> !(#[trigger] es[m] matches EnvSourceV::Inline { key, .. } && key == k)
}

proof fn lemma_inline_env_avoid(es: Seq<EnvSourceV>, k: Seq<char>)
    requires
        no_inline_named(es, k),
    ensures
        keys_avoid(inline_env(es), ys(k)),
    decreases es.len(),
{
    if es.len() > 0 {
        assert(no_inline_named(es.drop_last(), k)) by {
            assert forall|m: int| 0 <= m < es.drop_last().len() implies !(#[trigger] es.drop_last()[m] matches EnvSourceV::Inline { key, .. } && key == k) by {
                assert(es.drop_last()[m] == es[m]);
            }
        }
        lemma_inline_env_avoid(es.drop_last(), k);
        let a = inline_env(es.drop_last());
        assert(es.last() == es[es.len() - 1]);
        assert forall|j: int| 0 <= j < inline_env(es).len() implies (#[trigger] inline_env(es)[j]).0 != ys(k) by {
            if j >= a.len() {
                match es.last() {
                    EnvSourceV::Inline { key, value, secret } => {
                        assert(key != k);
                        assert(inline_env(es)[j] == (ys(key), ys(inline_value(key, value, secret))));
                    },
                    _ => {},
                }
            } else {
                assert(inline_env(es)[j] == a[j]);
            }
        }
    }
}

/// `env from` lists resolve left to right, the last value winning: where no
/// later inline variable has its name, the compose `environment` maps the name
/// of an inline variable to its value (to `${NAME}` for a secret).
pub proof fn lemma_env_last_wins(es: Seq<EnvSourceV>, j: int, k: Seq<char>, v: Seq<char>, secret: bool)
    requires
        0 <= j < es.len(),
        es[j] == (EnvSourceV::Inline { key: k, value: v, secret }),
        no_inline_named(es.skip(j + 1), k),
    ensures
        map_get(insert_all(seq![], inline_env(es)), ys(k)) == Some(ys(inline_value(k, v, secret))),
{
    let a = es.take(j);
    let b = es.skip(j + 1);
    let one = seq![es[j]];
    let val = ys(inline_value(k, v, secret));
    assert(es =~= a + one + b);
    lemma_inline_env_concat(a + one, b);
    lemma_inline_env_concat(a, one);
    assert(one.drop_last() =~= Seq::<EnvSourceV>::empty());
    assert(inline_env(one.drop_last()) =~= Seq::<(YamlV, YamlV)>::empty());
    assert(one.last() == es[j]);
    assert(inline_env(one) =~= seq![(ys(k), val)]);
    let e = inline_env(one);
    lemma_insert_all_append(seq![], inline_env(a), e);
    lemma_insert_all_append(seq![], inline_env(a) + e, inline_env(b));
    let m1 = insert_all(seq![], inline_env(a));
    assert(e.drop_last() =~= Seq::<(YamlV, YamlV)>::empty());
    assert(insert_all(m1, e.drop_last()) == m1);
    assert(e.last() == (ys(k), val));
    assert(insert_all(m1, e) == map_insert(m1, ys(k), val));
    lemma_map_get_insert(m1, ys(k), val);
    lemma_inline_env_avoid(b, k);
    lemma_insert_all_avoid(insert_all(m1, e), inline_env(b), ys(k));
}

/// A secret inline variable reaches the compose `environment` only as the
/// reference `${NAME}`, never as its value (where no later inline variable
/// has its name).
pub proof fn lemma_secret_env_is_reference(es: Seq<EnvSourceV>, j: int, k: Seq<char>, v: Seq<char>)
    requires
        0 <= j < es.len(),
        es[j] == (EnvSourceV::Inline { key: k, value: v, secret: true }),
        no_inline_named(es.skip(j + 1), k),
    ensures
        map_get(insert_all(seq![], inline_env(es)), ys(k)) == Some(ys("${"@ + k + "}"@)),
{
    lemma_env_last_wins(es, j, k, v, true);
}

} // verus!
