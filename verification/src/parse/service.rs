//! Service files: `container` blocks and their directives.
use vstd::prelude::*;
use crate::ast::{
    Dependency, DependencyCondition, DependencyV, EnvSource, EnvSourceV, HealthCheck,
    HealthCheckV, ResourceLimit, ResourceLimitV, RouteAdd, RouteAddV, ServeConfig, ServeConfigV,
    ServiceBlock, ServiceBlockV, StrMap, Volume, VolumeV, opt_view, str_insert, strs_view,
};
use crate::parse::{
    ErrorKind, eol_end, eol_end_exec, ident_end, ident_end_exec, kind_name, lemma_ident_tail,
    lemma_quoted, quoted, quoted_exec, tag_end, tag_end_exec, ws_end, ws_end_exec,
};
use crate::parse::config::trim_all;
use crate::parse::env::copy_opt;
use crate::text::{
    append, chars_of, chars_of_string, contains_exec, count_char_exec, dec_exec, debug_str, ends_with_exec, eq_chars,
    find_exec, find_from_exec, lines_exec, lit, matches_at_exec, parse_uint_exec,
    rfind_char_exec, skip_class_exec, slice_of, split_char_exec, split_once_exec,
    starts_with_exec, string_of, strip_suffixes_exec, trim_exec, trim_start_class_exec, views,
    words_exec,
    CharClass, contains, count_char, dec, debug_quoted, ends_with, find, find_from, lines,
    lemma_find_from, lemma_skip_class, matches_at, parse_uint, rfind_char, skip_class,
    split_char, split_once, starts_with, strip_suffixes, trim, trim_class, words,
    lemma_rfind_before,
};
use crate::yaml::{Yaml, YamlV, parse_or_str, parse_or_string};

verus! {

/// The line feed.
pub open spec fn nl() -> Seq<char> {
    seq!['\n']
}

/// `ws, tag(t), take_until("\n"), line_ending`: the position after the line and
/// the text between the tag and the line feed.
pub open spec fn tagged_line(s: Seq<char>, p: int, t: Seq<char>) -> Option<(int, Seq<char>)> {
    let a = ws_end(s, p);
    match tag_end(s, a, t) {
        None => None,
        Some(b) => match find_from(s, nl(), b) {
            None => None,
            Some(c) => match eol_end(s, c) {
                None => None,
                Some(d) => Some((d, s.subrange(b, c))),
            },
        },
    }
}

pub proof fn lemma_tagged_line(s: Seq<char>, p: int, t: Seq<char>)
    requires
        0 <= p <= s.len(),
        t.len() > 0,
    ensures
        tagged_line(s, p, t) matches Some((q, c)) ==> p < q <= s.len(),
{
    lemma_skip_class(s, p, CharClass::Multispace);
    let a = ws_end(s, p);
    if let Some(b) = tag_end(s, a, t) {
        lemma_find_from(s, nl(), b);
    }
}

/// `limit to <memory>, <cpus>`.
pub open spec fn limit_line(s: Seq<char>, p: int) -> Option<(int, ResourceLimitV)> {
    let a = ws_end(s, p);
    match tag_end(s, a, "limit to "@) {
        None => None,
        Some(b) => match find_from(s, seq![','], b) {
            None => None,
            Some(c) => {
                let d = ws_end(s, c + 1);
                match find_from(s, nl(), d) {
                    None => None,
                    Some(e) => match eol_end(s, e) {
                        None => None,
                        Some(f) => Some(
                            (
                                f,
                                ResourceLimitV {
                                    memory: trim(s.subrange(b, c)),
                                    cpus: trim(s.subrange(d, e)),
                                },
                            ),
                        ),
                    },
                }
            },
        },
    }
}

/// `map <left> as <right>`: the left side is the host path, the right side the
/// container path with an optional `:mode` after its last colon.
pub open spec fn volume_line(s: Seq<char>, p: int) -> Option<(int, VolumeV)> {
    let a = ws_end(s, p);
    match tag_end(s, a, "map "@) {
        None => None,
        Some(b) => match find_from(s, " as "@, b) {
            None => None,
            Some(c) => {
                let d = c + 4;
                match find_from(s, nl(), d) {
                    None => None,
                    Some(e) => match eol_end(s, e) {
                        None => None,
                        Some(f) => {
                            let container = trim(s.subrange(d, e));
                            let host = trim(s.subrange(b, c));
                            Some(
                                (
                                    f,
                                    match rfind_char(container, ':') {
                                        Some(k) => VolumeV {
                                            container_path: container.subrange(0, k),
                                            host_path: host,
                                            mode: Some(
                                                container.subrange(k + 1, container.len() as int),
                                            ),
                                        },
                                        None => VolumeV {
                                            container_path: container,
                                            host_path: host,
                                            mode: None,
                                        },
                                    },
                                ),
                            )
                        },
                    },
                }
            },
        },
    }
}

/// The ports of an `expose:` list: items that read as a `u16`, in order.
pub open spec fn ports_of(items: Seq<Seq<char>>) -> Seq<u16>
    decreases items.len(),
{
    if items.len() == 0 {
        seq![]
    } else {
        let rest = ports_of(items.drop_last());
        match parse_uint(trim(items.last()), 65535) {
            Some(n) => rest.push(n as u16),
            None => rest,
        }
    }
}

/// `expose: <port>, <port>`.
pub open spec fn expose_line(s: Seq<char>, p: int) -> Option<(int, Seq<u16>)> {
    let a = ws_end(s, p);
    match tag_end(s, a, "expose:"@) {
        None => None,
        Some(b) => {
            let c = ws_end(s, b);
            match find_from(s, nl(), c) {
                None => None,
                Some(e) => Some((e + 1, ports_of(split_char(s.subrange(c, e), ',')))),
            }
        },
    }
}

/// One `depends_on` item: `<service> healthy`, `<service> started` or `<service>`.
pub open spec fn dependency_of(raw: Seq<char>) -> DependencyV {
    let d = trim(raw);
    if ends_with(d, " healthy"@) {
        DependencyV {
            service: strip_suffixes(d, " healthy"@),
            condition: DependencyCondition::Healthy,
        }
    } else if ends_with(d, " started"@) {
        DependencyV {
            service: strip_suffixes(d, " started"@),
            condition: DependencyCondition::Started,
        }
    } else {
        DependencyV { service: d, condition: DependencyCondition::Started }
    }
}

/// A `depends_on` item `<svc> started` depends on `<svc>` once started, and
/// `<svc> healthy` on `<svc>` once healthy: the condition word is never part of
/// the service name. A bare `<svc>` depends on `<svc>` once started. Here
/// `<svc>` is a name without surrounding whitespace that does not itself end
/// in a condition word.
pub proof fn lemma_dependency_item(svc: Seq<char>)
    requires
        svc.len() > 0,
        !crate::text::is_ws(svc[0]),
        !crate::text::is_ws(svc[svc.len() - 1]),
        !ends_with(svc, " started"@),
        !ends_with(svc, " healthy"@),
    ensures
        dependency_of(svc + " started"@) == (DependencyV {
            service: svc,
            condition: DependencyCondition::Started,
        }),
        dependency_of(svc + " healthy"@) == (DependencyV {
            service: svc,
            condition: DependencyCondition::Healthy,
        }),
        dependency_of(svc) == (DependencyV { service: svc, condition: DependencyCondition::Started }),
{
    reveal_strlit(" started");
    reveal_strlit(" healthy");
    let st = svc + " started"@;
    let he = svc + " healthy"@;
    let n = svc.len() as int;
    crate::text::lemma_trim_at(st, 0);
    crate::text::lemma_trim_at(he, 0);
    crate::text::lemma_trim_at(svc, 0);
    assert(st.subrange(0, st.len() as int) =~= st);
    assert(he.subrange(0, he.len() as int) =~= he);
    assert(svc.subrange(0, n) =~= svc);
    assert(st.subrange(n, n + 8) =~= " started"@);
    assert(he.subrange(n, n + 8) =~= " healthy"@);
    assert(ends_with(st, " started"@));
    assert(ends_with(he, " healthy"@));
    assert(!ends_with(st, " healthy"@)) by {
        assert(st[st.len() - 1] == 'd');
        assert(" healthy"@[7] == 'y');
        if ends_with(st, " healthy"@) {
            assert(st.subrange(n, n + 8)[7] == " healthy"@[7]);
        }
    }
    assert(st.subrange(0, st.len() - 8) =~= svc);
    assert(he.subrange(0, he.len() - 8) =~= svc);
    assert(strip_suffixes(st, " started"@) == strip_suffixes(svc, " started"@));
    assert(strip_suffixes(he, " healthy"@) == strip_suffixes(svc, " healthy"@));
}

/// Timing settings read so far: interval, timeout, retries, start period.
pub struct Timing {
    pub interval: Option<Seq<char>>,
    pub timeout: Option<Seq<char>>,
    pub retries: Option<u32>,
    pub start_period: Option<Seq<char>>,
}

/// The timing words from index `i` on: `every <d>`, `wait <d>`, `repeat <n>`,
/// `after <d>`; other words are skipped.
pub open spec fn timing_from(toks: Seq<Seq<char>>, i: int, acc: Timing) -> Timing
    decreases toks.len() - i,
{
    if i < 0 || i >= toks.len() {
        acc
    } else if i + 1 < toks.len() && toks[i] == "every"@ {
        timing_from(toks, i + 2, Timing { interval: Some(toks[i + 1]), ..acc })
    } else if i + 1 < toks.len() && toks[i] == "wait"@ {
        timing_from(toks, i + 2, Timing { timeout: Some(toks[i + 1]), ..acc })
    } else if i + 1 < toks.len() && toks[i] == "repeat"@ {
        timing_from(
            toks,
            i + 2,
            Timing {
                retries: match parse_uint(toks[i + 1], 0xFFFF_FFFF) {
                    Some(n) => Some(n as u32),
                    None => None,
                },
                ..acc
            },
        )
    } else if i + 1 < toks.len() && toks[i] == "after"@ {
        timing_from(toks, i + 2, Timing { start_period: Some(toks[i + 1]), ..acc })
    } else {
        timing_from(toks, i + 1, acc)
    }
}

pub open spec fn no_timing() -> Timing {
    Timing { interval: None, timeout: None, retries: None, start_period: None }
}

/// The optional timing line after `healthcheck with "..."`.
pub open spec fn timing_line(s: Seq<char>, p: int) -> Option<(int, Timing)> {
    let t0 = skip_class(s, p, CharClass::SpaceTab);
    let le = match find_from(s, nl(), t0) {
        Some(j) => j,
        None => s.len() as int,
    };
    let next_line = s.subrange(t0, le);
    let part = if starts_with(next_line, "healthcheck"@) {
        trim(next_line.subrange(11, next_line.len() as int))
    } else {
        next_line
    };
    if !(contains(part, "every "@) || contains(part, "wait "@) || contains(part, "repeat "@)
        || contains(part, "after "@)) {
        None
    } else {
        let a = ws_end(s, p);
        let b = if matches_at(s, "healthcheck "@, a) {
            a + 12
        } else {
            a
        };
        match find_from(s, nl(), b) {
            None => None,
            Some(c) => Some((c + 1, timing_from(words(s.subrange(b, c)), 0, no_timing()))),
        }
    }
}

/// `healthcheck with "<test>"` and the optional timing line.
pub open spec fn healthcheck_line(s: Seq<char>, p: int) -> Option<(int, HealthCheckV)> {
    let a = ws_end(s, p);
    match tag_end(s, a, "healthcheck with "@) {
        None => None,
        Some(b) => match quoted(s, b) {
            None => None,
            Some((c, test)) => match eol_end(s, c) {
                None => None,
                Some(d) => {
                    let (e, t) = match timing_line(s, d) {
                        Some((e, t)) => (e, t),
                        None => (d, no_timing()),
                    };
                    Some(
                        (
                            e,
                            HealthCheckV {
                                test,
                                interval: t.interval,
                                timeout: t.timeout,
                                retries: t.retries,
                                start_period: t.start_period,
                            },
                        ),
                    )
                },
            },
        },
    }
}

/// One `env from` item: `KEY=value`, `*KEY=value`, `section@file`, `@file` or
/// `${KEY@section@file}`.
pub open spec fn env_source(raw: Seq<char>) -> Option<EnvSourceV> {
    let r = trim(raw);
    let is_ref = starts_with(r, "${"@) && ends_with(r, "}"@);
    let inner = if is_ref {
        r.subrange(2, r.len() - 1)
    } else {
        r
    };
    if !is_ref && contains(inner, "="@) {
        match split_once(inner, '=') {
            Some((before, after)) => {
                let k = trim(before);
                Some(
                    EnvSourceV::Inline {
                        key: crate::text::trim_start_class(k, CharClass::Exactly('*')),
                        value: trim(after),
                        secret: k.len() > 0 && k[0] == '*',
                    },
                )
            },
            None => None,
        }
    } else if count_char(inner, '@') >= 2 {
        match rfind_char(inner, '@') {
            Some(last) => match rfind_char(inner.subrange(0, last), '@') {
                Some(second) => {
                    let section = trim(inner.subrange(second + 1, last));
                    Some(
                        EnvSourceV::VarRef {
                            key: trim(inner.subrange(0, second)),
                            file: trim(inner.subrange(last + 1, inner.len() as int)),
                            section: if section.len() == 0 {
                                None
                            } else {
                                Some(section)
                            },
                        },
                    )
                },
                None => None,
            },
            None => None,
        }
    } else if count_char(inner, '@') == 1 {
        match split_once(inner, '@') {
            Some((name, file)) => Some(
                EnvSourceV::File {
                    file: trim(file),
                    section: if trim(name).len() > 0 {
                        Some(trim(name))
                    } else {
                        None
                    },
                },
            ),
            None => None,
        }
    } else {
        None
    }
}

/// The readable sources of an `env from` list, in order.
pub open spec fn env_sources(items: Seq<Seq<char>>) -> Seq<EnvSourceV>
    decreases items.len(),
{
    if items.len() == 0 {
        seq![]
    } else {
        let rest = env_sources(items.drop_last());
        match env_source(trim(items.last())) {
            Some(e) => rest.push(e),
            None => rest,
        }
    }
}

/// `serve [name] as <subdomain>:<port> [through <mw>, ... [use <service>]]`, or
/// `serve [name] as <subdomain>` for the Traefik API (no port).
pub open spec fn serve_line(s: Seq<char>, p: int) -> Option<(int, ServeConfigV)> {
    let a = ws_end(s, p);
    match tag_end(s, a, "serve "@) {
        None => None,
        Some(b) => {
            let head: Option<(int, Option<Seq<char>>)> = if matches_at(s, "as "@, b) {
                Some((b + 3, None))
            } else {
                match ident_end(s, b) {
                    None => None,
                    Some(e) => match tag_end(s, e, " as "@) {
                        None => None,
                        Some(f) => Some((f, Some(s.subrange(b, e)))),
                    },
                }
            };
            match head {
                None => None,
                Some((c, name)) => match find_from(s, nl(), c) {
                    None => None,
                    Some(j) => serve_body(s.subrange(c, j), name, j + 1),
                },
            }
        },
    }
}

/// The part of a serve line after `as `.
pub open spec fn serve_body(rest: Seq<char>, name: Option<Seq<char>>, end: int) -> Option<
    (int, ServeConfigV),
> {
    let (addr, mw): (Seq<char>, Option<Seq<char>>) = match find(rest, " through "@) {
        Some(k) => (rest.subrange(0, k), Some(rest.subrange(k + 9, rest.len() as int))),
        None => (rest, None),
    };
    let (mws, use_service): (Seq<Seq<char>>, Option<Seq<char>>) = match mw {
        Some(m) => match find(m, " use "@) {
            Some(u) => (
                split_char(m.subrange(0, u), ',').map_values(|x: Seq<char>| trim(x)),
                Some(trim(m.subrange(u + 5, m.len() as int))),
            ),
            None => (split_char(m, ',').map_values(|x: Seq<char>| trim(x)), None),
        },
        None => (seq![], None),
    };
    match rfind_char(addr, ':') {
        Some(k) => match parse_uint(trim(addr.subrange(k + 1, addr.len() as int)), 65535) {
            None => None,
            Some(port) => Some(
                (
                    end,
                    ServeConfigV {
                        name,
                        subdomain: trim(addr.subrange(0, k)),
                        port: port as u16,
                        api_internal: false,
                        middlewares: mws,
                        use_service,
                    },
                ),
            ),
        },
        None => Some(
            (
                end,
                ServeConfigV {
                    name,
                    subdomain: trim(addr),
                    port: 0,
                    api_internal: true,
                    middlewares: mws,
                    use_service,
                },
            ),
        ),
    }
}

/// The content of a `route_add` line: `[name] key: value`.
pub open spec fn route_add_of(line: Seq<char>) -> Option<RouteAddV> {
    match split_once(line, ':') {
        None => None,
        Some((b, a)) => {
            let before = trim(b);
            let value = parse_or_str(trim(a));
            match find(before, " "@) {
                Some(sp) => Some(
                    RouteAddV {
                        route_name: Some(before.subrange(0, sp)),
                        key: trim(before.subrange(sp + 1, before.len() as int)),
                        value,
                    },
                ),
                None => Some(RouteAddV { route_name: None, key: before, value }),
            }
        },
    }
}

/// The content of a `raw` line: `key: value`.
pub open spec fn raw_of(line: Seq<char>) -> Option<(Seq<char>, YamlV)> {
    match split_once(line, ':') {
        None => None,
        Some((k, v)) => Some((trim(k), parse_or_str(trim(v)))),
    }
}

/// A directive line of a container block.
pub enum Directive {
    Limit(ResourceLimitV),
    Network(Seq<char>),
    Volume(VolumeV),
    Expose(Seq<u16>),
    User(Seq<char>),
    Depends(Seq<DependencyV>),
    Health(HealthCheckV),
    EnvFrom(Seq<EnvSourceV>),
    Serve(ServeConfigV),
    Route(RouteAddV),
    NetworkConfig(Seq<char>),
    Raw(Seq<char>, YamlV),
}

/// The first directive form that reads the text at `p`, in the order the
/// parser tries them.
pub open spec fn directive(s: Seq<char>, p: int) -> Option<(int, Directive)> {
    if let Some((q, l)) = limit_line(s, p) {
        Some((q, Directive::Limit(l)))
    } else if let Some((q, c)) = tagged_line(s, p, "network "@) {
        Some((q, Directive::Network(trim(c))))
    } else if let Some((q, v)) = volume_line(s, p) {
        Some((q, Directive::Volume(v)))
    } else if let Some((q, ps)) = expose_line(s, p) {
        Some((q, Directive::Expose(ps)))
    } else if let Some((q, c)) = tagged_line(s, p, "user: "@) {
        Some((q, Directive::User(trim(c))))
    } else if let Some((q, c)) = tagged_line(s, p, "depends_on "@) {
        Some(
            (
                q,
                Directive::Depends(
                    split_char(c, ',').map_values(|d: Seq<char>| dependency_of(d)),
                ),
            ),
        )
    } else if let Some((q, h)) = healthcheck_line(s, p) {
        Some((q, Directive::Health(h)))
    } else if let Some((q, c)) = tagged_line(s, p, "env from "@) {
        Some((q, Directive::EnvFrom(env_sources(split_char(c, ',')))))
    } else if let Some((q, sv)) = serve_line(s, p) {
        Some((q, Directive::Serve(sv)))
    } else if let Some((q, c)) = tagged_line(s, p, "route_add "@) {
        match route_add_of(c) {
            Some(ra) => Some((q, Directive::Route(ra))),
            None => directive_tail(s, p),
        }
    } else {
        directive_tail(s, p)
    }
}

/// The forms tried after `route_add`.
pub open spec fn directive_tail(s: Seq<char>, p: int) -> Option<(int, Directive)> {
    if let Some((q, c)) = tagged_line(s, p, "network-config from "@) {
        Some((q, Directive::NetworkConfig(trim(c))))
    } else if let Some((q, c)) = tagged_line(s, p, "raw "@) {
        match raw_of(c) {
            Some((k, v)) => Some((q, Directive::Raw(k, v))),
            None => None,
        }
    } else {
        None
    }
}

/// The key a `route_add` uses to target a serve: its name, else its subdomain.
pub open spec fn serve_key(sv: ServeConfigV) -> Seq<char> {
    match sv.name {
        Some(n) => n,
        None => sv.subdomain,
    }
}

/// A block as read so far, and the key of the last `serve` (see `serve_key`),
/// which a nameless `route_add` takes.
pub open spec fn apply_directive(
    b: ServiceBlockV,
    last: Option<Seq<char>>,
    d: Directive,
) -> (ServiceBlockV, Option<Seq<char>>) {
    match d {
        Directive::Limit(l) => (ServiceBlockV { limit: Some(l), ..b }, last),
        Directive::Network(n) => (ServiceBlockV { networks: b.networks.push(n), ..b }, last),
        Directive::Volume(v) => (ServiceBlockV { volumes: b.volumes.push(v), ..b }, last),
        Directive::Expose(ps) => (ServiceBlockV { expose: b.expose + ps, ..b }, last),
        Directive::User(u) => (ServiceBlockV { user: Some(u), ..b }, last),
        Directive::Depends(ds) => (ServiceBlockV { depends_on: b.depends_on + ds, ..b }, last),
        Directive::Health(h) => (ServiceBlockV { healthcheck: Some(h), ..b }, last),
        Directive::EnvFrom(es) => (ServiceBlockV { env_from: b.env_from + es, ..b }, last),
        Directive::Serve(sv) => (ServiceBlockV { serve: b.serve.push(sv), ..b }, Some(serve_key(sv))),
        Directive::Route(ra) => {
            let ra2 = if ra.route_name is None {
                RouteAddV { route_name: last, ..ra }
            } else {
                ra
            };
            (ServiceBlockV { route_add: b.route_add.push(ra2), ..b }, last)
        },
        Directive::NetworkConfig(n) => (ServiceBlockV { network_config: Some(n), ..b }, last),
        Directive::Raw(k, v) => (ServiceBlockV { raw: str_insert(b.raw, k, v), ..b }, last),
    }
}


pub proof fn lemma_limit_line(s: Seq<char>, p: int)
    requires
        0 <= p <= s.len(),
    ensures
        limit_line(s, p) matches Some((q, l)) ==> p < q <= s.len(),
{
    lemma_skip_class(s, p, CharClass::Multispace);
    let a = ws_end(s, p);
    if let Some(b) = tag_end(s, a, "limit to "@) {
        reveal_strlit("limit to ");
        lemma_find_from(s, seq![','], b);
        if let Some(c) = find_from(s, seq![','], b) {
            lemma_skip_class(s, c + 1, CharClass::Multispace);
            lemma_find_from(s, nl(), ws_end(s, c + 1));
        }
    }
}

pub proof fn lemma_volume_line(s: Seq<char>, p: int)
    requires
        0 <= p <= s.len(),
    ensures
        volume_line(s, p) matches Some((q, v)) ==> p < q <= s.len(),
{
    lemma_skip_class(s, p, CharClass::Multispace);
    let a = ws_end(s, p);
    if let Some(b) = tag_end(s, a, "map "@) {
        reveal_strlit("map ");
        reveal_strlit(" as ");
        lemma_find_from(s, " as "@, b);
        if let Some(c) = find_from(s, " as "@, b) {
            lemma_find_from(s, nl(), c + 4);
        }
    }
}

pub proof fn lemma_expose_line(s: Seq<char>, p: int)
    requires
        0 <= p <= s.len(),
    ensures
        expose_line(s, p) matches Some((q, v)) ==> p < q <= s.len(),
{
    lemma_skip_class(s, p, CharClass::Multispace);
    let a = ws_end(s, p);
    if let Some(b) = tag_end(s, a, "expose:"@) {
        reveal_strlit("expose:");
        lemma_skip_class(s, b, CharClass::Multispace);
        lemma_find_from(s, nl(), ws_end(s, b));
    }
}

pub proof fn lemma_timing_line(s: Seq<char>, p: int)
    requires
        0 <= p <= s.len(),
    ensures
        timing_line(s, p) matches Some((q, t)) ==> p < q <= s.len(),
{
    lemma_skip_class(s, p, CharClass::Multispace);
    let a = ws_end(s, p);
    reveal_strlit("healthcheck ");
    let b = if matches_at(s, "healthcheck "@, a) {
        a + 12
    } else {
        a
    };
    lemma_find_from(s, nl(), b);
}

pub proof fn lemma_healthcheck_line(s: Seq<char>, p: int)
    requires
        0 <= p <= s.len(),
    ensures
        healthcheck_line(s, p) matches Some((q, h)) ==> p < q <= s.len(),
{
    lemma_skip_class(s, p, CharClass::Multispace);
    let a = ws_end(s, p);
    if let Some(b) = tag_end(s, a, "healthcheck with "@) {
        reveal_strlit("healthcheck with ");
        lemma_quoted(s, b);
        if let Some((c, test)) = quoted(s, b) {
            if let Some(d) = eol_end(s, c) {
                lemma_timing_line(s, d);
            }
        }
    }
}

pub proof fn lemma_serve_line(s: Seq<char>, p: int)
    requires
        0 <= p <= s.len(),
    ensures
        serve_line(s, p) matches Some((q, v)) ==> p < q <= s.len(),
{
    lemma_skip_class(s, p, CharClass::Multispace);
    let a = ws_end(s, p);
    if let Some(b) = tag_end(s, a, "serve "@) {
        reveal_strlit("serve ");
        reveal_strlit("as ");
        reveal_strlit(" as ");
        let head: Option<(int, Option<Seq<char>>)> = if matches_at(s, "as "@, b) {
            Some((b + 3, None))
        } else {
            match ident_end(s, b) {
                None => None,
                Some(e) => match tag_end(s, e, " as "@) {
                    None => None,
                    Some(f) => Some((f, Some(s.subrange(b, e)))),
                },
            }
        };
        if let Some(e) = ident_end(s, b) {
            lemma_ident_tail(s, b + 1);
        }
        if let Some((c, name)) = head {
            lemma_find_from(s, nl(), c);
        }
    }
}

pub proof fn lemma_directive(s: Seq<char>, p: int)
    requires
        0 <= p <= s.len(),
    ensures
        directive(s, p) matches Some((q, d)) ==> p < q <= s.len(),
{
    lemma_limit_line(s, p);
    lemma_volume_line(s, p);
    lemma_expose_line(s, p);
    lemma_healthcheck_line(s, p);
    lemma_serve_line(s, p);
    reveal_strlit("network ");
    reveal_strlit("user: ");
    reveal_strlit("depends_on ");
    reveal_strlit("env from ");
    reveal_strlit("route_add ");
    reveal_strlit("network-config from ");
    reveal_strlit("raw ");
    lemma_tagged_line(s, p, "network "@);
    lemma_tagged_line(s, p, "user: "@);
    lemma_tagged_line(s, p, "depends_on "@);
    lemma_tagged_line(s, p, "env from "@);
    lemma_tagged_line(s, p, "route_add "@);
    lemma_tagged_line(s, p, "network-config from "@);
    lemma_tagged_line(s, p, "raw "@);
}

/// End of the raw YAML after `end`: the start of the line (or run of blank
/// lines) before the next `container`, or the end of the text.
pub open spec fn raw_end(s: Seq<char>, pos: int) -> int
    decreases s.len() - pos,
{
    if pos < 0 || pos >= s.len() {
        s.len() as int
    } else if matches_at(s, "container "@, skip_class(s, pos, CharClass::Multispace)) {
        pos
    } else {
        match find_from(s, nl(), pos) {
            Some(j) => {
                proof {
                    lemma_find_from(s, nl(), pos);
                }
                raw_end(s, j + 1)
            },
            None => s.len() as int,
        }
    }
}

pub proof fn lemma_raw_end(s: Seq<char>, pos: int)
    requires
        0 <= pos,
    ensures
        pos <= s.len() ==> pos <= raw_end(s, pos) <= s.len(),
        pos > s.len() ==> raw_end(s, pos) == s.len(),
    decreases s.len() - pos,
{
    if 0 <= pos < s.len() && !matches_at(s, "container "@, skip_class(s, pos, CharClass::Multispace)) {
        lemma_find_from(s, nl(), pos);
        if let Some(j) = find_from(s, nl(), pos) {
            lemma_raw_end(s, j + 1);
        }
    }
}

/// The text starts an `end` line at `t`.
pub open spec fn is_end_line(s: Seq<char>, t: int) -> bool {
    matches_at(s, "end\n"@, t) || matches_at(s, "end\r\n"@, t) || s.subrange(t, s.len() as int)
        == "end"@
}

/// The directives of a block from `p` on, until the next `container` line, the
/// end of the text, or an `end` line (whose following raw YAML is kept).
pub open spec fn block_loop(s: Seq<char>, p: int, b: ServiceBlockV, last: Option<Seq<char>>) -> (
    int,
    ServiceBlockV,
)
    decreases s.len() - p,
{
    if p < 0 || p > s.len() {
        (p, b)
    } else {
        let p1 = skip_class(s, p, CharClass::LineBreak);
        if p1 >= s.len() || matches_at(s, "container "@, p1) {
            (p1, b)
        } else {
            proof {
                lemma_skip_class(s, p, CharClass::LineBreak);
            }
            let t = skip_class(s, p1, CharClass::SpaceTab);
            if is_end_line(s, t) {
                let after = match find_from(s, nl(), p1) {
                    Some(j) => j + 1,
                    None => s.len() as int,
                };
                let e = raw_end(s, after);
                let rb = trim(s.subrange(after, e));
                (
                    e,
                    ServiceBlockV {
                        raw_compose_block: if rb.len() > 0 {
                            Some(rb)
                        } else {
                            b.raw_compose_block
                        },
                        ..b
                    },
                )
            } else {
                match directive(s, p1) {
                    Some((q, d)) => {
                        proof {
                            lemma_directive(s, p1);
                        }
                        let (b2, l2) = apply_directive(b, last, d);
                        block_loop(s, q, b2, l2)
                    },
                    None => match find_from(s, nl(), p1) {
                        Some(j) => {
                            proof {
                                lemma_find_from(s, nl(), p1);
                            }
                            block_loop(s, j + 1, b, last)
                        },
                        None => (p1, b),
                    },
                }
            }
        }
    }
}

pub proof fn lemma_block_loop(s: Seq<char>, p: int, b: ServiceBlockV, last: Option<Seq<char>>)
    requires
        0 <= p <= s.len(),
    ensures
        p <= block_loop(s, p, b, last).0 <= s.len(),
    decreases s.len() - p,
{
    lemma_skip_class(s, p, CharClass::LineBreak);
    let p1 = skip_class(s, p, CharClass::LineBreak);
    if p1 < s.len() && !matches_at(s, "container "@, p1) {
        let t = skip_class(s, p1, CharClass::SpaceTab);
        if is_end_line(s, t) {
            lemma_find_from(s, nl(), p1);
            let after = match find_from(s, nl(), p1) {
                Some(j) => j + 1,
                None => s.len() as int,
            };
            lemma_raw_end(s, after);
        } else {
            lemma_directive(s, p1);
            lemma_find_from(s, nl(), p1);
            match directive(s, p1) {
                Some((q, d)) => {
                    let (b2, l2) = apply_directive(b, last, d);
                    lemma_block_loop(s, q, b2, l2);
                },
                None => {
                    if let Some(j) = find_from(s, nl(), p1) {
                        lemma_block_loop(s, j + 1, b, last);
                    }
                },
            }
        }
    }
}

/// The `container [image] <image> as <name>[:]` line at `p` (after whitespace):
/// the position after it, the name and the image; or where and why it fails.
pub open spec fn container_line(s: Seq<char>, p: int) -> Result<
    (int, Seq<char>, Seq<char>),
    (int, ErrorKind),
> {
    let a = ws_end(s, p);
    match tag_end(s, a, "container "@) {
        None => Err((a, ErrorKind::Tag)),
        Some(b0) => {
            let b = ws_end(s, b0);
            let c = if matches_at(s, "image"@, b) {
                b + 5
            } else {
                b
            };
            let d = ws_end(s, c);
            match find_from(s, " as "@, d) {
                None => Err((d, ErrorKind::TakeUntil)),
                Some(e) => {
                    let g = ws_end(s, e + 4);
                    match ident_end(s, g) {
                        None => Err((g, ErrorKind::TakeWhile1)),
                        Some(h) => {
                            let i = if matches_at(s, ":"@, h) {
                                h + 1
                            } else {
                                h
                            };
                            match eol_end(s, i) {
                                None => Err((i, ErrorKind::CrLf)),
                                Some(j) => Ok((j, s.subrange(g, h), trim(s.subrange(d, e)))),
                            }
                        },
                    }
                },
            }
        },
    }
}

pub proof fn lemma_container_line(s: Seq<char>, p: int)
    requires
        0 <= p <= s.len(),
    ensures
        container_line(s, p) matches Ok((j, n, i)) ==> p < j <= s.len(),
        container_line(s, p) matches Err((q, k)) ==> p <= q <= s.len(),
{
    reveal_strlit("container ");
    reveal_strlit("image");
    reveal_strlit(" as ");
    reveal_strlit(":");
    lemma_skip_class(s, p, CharClass::Multispace);
    let a = ws_end(s, p);
    if let Some(b0) = tag_end(s, a, "container "@) {
        lemma_skip_class(s, b0, CharClass::Multispace);
        let b = ws_end(s, b0);
        let c = if matches_at(s, "image"@, b) {
            b + 5
        } else {
            b
        };
        lemma_skip_class(s, c, CharClass::Multispace);
        let d = ws_end(s, c);
        lemma_find_from(s, " as "@, d);
        if let Some(e) = find_from(s, " as "@, d) {
            lemma_skip_class(s, e + 4, CharClass::Multispace);
            let g = ws_end(s, e + 4);
            if let Some(h) = ident_end(s, g) {
                lemma_ident_tail(s, g + 1);
            }
        }
    }
}

/// A block as declared by its `container` line, before any directive.
pub open spec fn fresh_block(name: Seq<char>, image: Seq<char>) -> ServiceBlockV {
    ServiceBlockV {
        source_file: seq![],
        source_line: 0,
        name,
        image,
        limit: None,
        networks: seq![],
        volumes: seq![],
        expose: seq![],
        user: None,
        depends_on: seq![],
        healthcheck: None,
        env_from: seq![],
        serve: seq![],
        route_add: seq![],
        network_config: None,
        raw: seq![],
        raw_compose_block: None,
    }
}

/// 1-based line number of position `q`.
pub open spec fn line_at(s: Seq<char>, q: int) -> int {
    (count_char(s.subrange(0, q), '\n') + 1) as int
}

/// The first line of `s[q..]`, trimmed.
pub open spec fn snippet_at(s: Seq<char>, q: int) -> Seq<char> {
    let ls = lines(s.subrange(q, s.len() as int));
    trim(
        if ls.len() > 0 {
            ls[0]
        } else {
            seq![]
        },
    )
}

/// `<file>:<line>: parse error (<kind>): <snippet in Debug form>`.
pub open spec fn error_message(file: Seq<char>, s: Seq<char>, q: int, k: ErrorKind) -> Seq<char> {
    file + ":"@ + dec(line_at(s, q) as nat) + ": parse error ("@ + kind_name(k) + "): "@
        + debug_quoted(snippet_at(s, q))
}

/// The blocks of `s` from `p` on, after the blocks `acc`.
pub open spec fn file_loop(s: Seq<char>, p: int, acc: Seq<ServiceBlockV>, file: Seq<char>) -> Result<
    Seq<ServiceBlockV>,
    Seq<char>,
>
    decreases s.len() - p,
{
    if p < 0 || p > s.len() {
        Ok(acc)
    } else {
        let p1 = skip_class(s, p, CharClass::LineBreak);
        if p1 >= s.len() {
            Ok(acc)
        } else {
            proof {
                lemma_skip_class(s, p, CharClass::LineBreak);
                lemma_container_line(s, p1);
            }
            match container_line(s, p1) {
                Err((q, k)) => Err(error_message(file, s, q, k)),
                Ok((j, name, image)) => {
                    let (e, blk) = block_loop(s, j, fresh_block(name, image), None);
                    proof {
                        lemma_block_loop(s, j, fresh_block(name, image), None);
                    }
                    file_loop(
                        s,
                        e,
                        acc.push(
                            ServiceBlockV {
                                source_file: file,
                                source_line: line_at(s, p1),
                                ..blk
                            },
                        ),
                        file,
                    )
                },
            }
        }
    }
}

/// The text with a final line feed.
pub open spec fn with_final_newline(input: Seq<char>) -> Seq<char> {
    if ends_with(input, nl()) {
        input
    } else {
        input.push('\n')
    }
}

/// What `parse_service_file` reads: the blocks, or the message for the first
/// `container` line that does not parse.
pub open spec fn parse_service_spec(input: Seq<char>, file: Seq<char>) -> Result<
    Seq<ServiceBlockV>,
    Seq<char>,
> {
    file_loop(with_final_newline(input), 0, seq![], file)
}


fn nl_exec() -> (r: Vec<char>)
    ensures
        r@ == nl(),
{
    let r = vec!['\n'];
    assert(r@ =~= nl());
    r
}

fn tagged_line_exec(v: &Vec<char>, p: usize, t: &Vec<char>) -> (r: Option<(usize, Vec<char>)>)
    requires
        p <= v.len(),
    ensures
        r matches Some((q, c)) ==> tagged_line(v@, p as int, t@) == Some((q as int, c@)) && q
            <= v.len(),
        r is None ==> tagged_line(v@, p as int, t@) is None,
{
    let a = ws_end_exec(v, p);
    match tag_end_exec(v, a, t) {
        None => None,
        Some(b) => {
            let n = nl_exec();
            proof {
                lemma_find_from(v@, nl(), b as int);
            }
            match find_from_exec(v, &n, b) {
                None => None,
                Some(c) => match eol_end_exec(v, c) {
                    None => None,
                    Some(d) => Some((d, slice_of(v, b, c))),
                },
            }
        },
    }
}

fn limit_line_exec(v: &Vec<char>, p: usize) -> (r: Option<(usize, ResourceLimit)>)
    requires
        p <= v.len(),
    ensures
        r matches Some((q, l)) ==> limit_line(v@, p as int) == Some((q as int, l@)) && q
            <= v.len(),
        r is None ==> limit_line(v@, p as int) is None,
{
    let a = ws_end_exec(v, p);
    match tag_end_exec(v, a, &lit("limit to ")) {
        None => None,
        Some(b) => {
            let comma = vec![','];
            assert(comma@ =~= seq![',']);
            proof {
                lemma_find_from(v@, seq![','], b as int);
            }
            match find_from_exec(v, &comma, b) {
                None => None,
                Some(c) => {
                    let d = ws_end_exec(v, c + 1);
                    let n = nl_exec();
                    proof {
                        lemma_find_from(v@, nl(), d as int);
                    }
                    match find_from_exec(v, &n, d) {
                        None => None,
                        Some(e) => match eol_end_exec(v, e) {
                            None => None,
                            Some(f) => {
                                let memory = string_of(&trim_exec(&slice_of(v, b, c)));
                                let cpus = string_of(&trim_exec(&slice_of(v, d, e)));
                                Some((f, ResourceLimit { memory, cpus }))
                            },
                        },
                    }
                },
            }
        },
    }
}

fn volume_line_exec(v: &Vec<char>, p: usize) -> (r: Option<(usize, Volume)>)
    requires
        p <= v.len(),
    ensures
        r matches Some((q, x)) ==> volume_line(v@, p as int) == Some((q as int, x@)) && q
            <= v.len(),
        r is None ==> volume_line(v@, p as int) is None,
{
    let a = ws_end_exec(v, p);
    match tag_end_exec(v, a, &lit("map ")) {
        None => None,
        Some(b) => {
            let sep = lit(" as ");
            proof {
                lemma_find_from(v@, " as "@, b as int);
                reveal_strlit(" as ");
            }
            match find_from_exec(v, &sep, b) {
                None => None,
                Some(c) => {
                    let d = c + 4;
                    let n = nl_exec();
                    proof {
                        lemma_find_from(v@, nl(), d as int);
                    }
                    match find_from_exec(v, &n, d) {
                        None => None,
                        Some(e) => match eol_end_exec(v, e) {
                            None => None,
                            Some(f) => {
                                let container = trim_exec(&slice_of(v, d, e));
                                let host = string_of(&trim_exec(&slice_of(v, b, c)));
                                let vol = match rfind_char_exec(&container, ':') {
                                    Some(k) => Volume {
                                        container_path: string_of(&slice_of(&container, 0, k)),
                                        host_path: host,
                                        mode: Some(
                                            string_of(
                                                &slice_of(&container, k + 1, container.len()),
                                            ),
                                        ),
                                    },
                                    None => Volume {
                                        container_path: string_of(&container),
                                        host_path: host,
                                        mode: None,
                                    },
                                };
                                Some((f, vol))
                            },
                        },
                    }
                },
            }
        },
    }
}

fn ports_exec(items: &Vec<Vec<char>>) -> (r: Vec<u16>)
    ensures
        r@ == ports_of(views(items@)),
{
    let mut r: Vec<u16> = Vec::new();
    let mut i: usize = 0;
    while i < items.len()
        invariant
            i <= items.len(),
            r@ == ports_of(views(items@).take(i as int)),
        decreases items.len() - i,
    {
        assert(views(items@).take(i as int + 1).drop_last() =~= views(items@).take(i as int));
        assert(views(items@).take(i as int + 1).last() == items@[i as int]@);
        match parse_uint_exec(&trim_exec(&items[i]), 65535) {
            Some(n) => {
                r.push(n as u16);
            },
            None => {},
        }
        i = i + 1;
    }
    assert(views(items@).take(items.len() as int) =~= views(items@));
    r
}

fn expose_line_exec(v: &Vec<char>, p: usize) -> (r: Option<(usize, Vec<u16>)>)
    requires
        p <= v.len(),
    ensures
        r matches Some((q, x)) ==> expose_line(v@, p as int) == Some((q as int, x@)) && q
            <= v.len(),
        r is None ==> expose_line(v@, p as int) is None,
{
    let a = ws_end_exec(v, p);
    match tag_end_exec(v, a, &lit("expose:")) {
        None => None,
        Some(b) => {
            let c = ws_end_exec(v, b);
            let n = nl_exec();
            proof {
                lemma_find_from(v@, nl(), c as int);
            }
            match find_from_exec(v, &n, c) {
                None => None,
                Some(e) => {
                    let items = split_char_exec(&slice_of(v, c, e), ',');
                    Some((e + 1, ports_exec(&items)))
                },
            }
        },
    }
}

fn dependency_exec(raw: &Vec<char>) -> (r: Dependency)
    ensures
        r@ == dependency_of(raw@),
{
    let d = trim_exec(raw);
    let healthy = lit(" healthy");
    let started = lit(" started");
    if ends_with_exec(&d, &healthy) {
        Dependency {
            service: string_of(&strip_suffixes_exec(&d, &healthy)),
            condition: DependencyCondition::Healthy,
        }
    } else if ends_with_exec(&d, &started) {
        Dependency {
            service: string_of(&strip_suffixes_exec(&d, &started)),
            condition: DependencyCondition::Started,
        }
    } else {
        Dependency { service: string_of(&d), condition: DependencyCondition::Started }
    }
}

fn dependencies_exec(items: &Vec<Vec<char>>) -> (r: Vec<Dependency>)
    ensures
        r@.map_values(|d: Dependency| d@) == views(items@).map_values(
            |d: Seq<char>| dependency_of(d),
        ),
{
    let mut r: Vec<Dependency> = Vec::new();
    let mut i: usize = 0;
    while i < items.len()
        invariant
            i <= items.len(),
            r.len() == i,
            forall|k: int| 0 <= k < i ==> r@[k]@ == dependency_of(items@[k]@),
        decreases items.len() - i,
    {
        r.push(dependency_exec(&items[i]));
        i = i + 1;
    }
    assert(r@.map_values(|d: Dependency| d@) =~= views(items@).map_values(
        |d: Seq<char>| dependency_of(d),
    ));
    r
}


fn timing_exec(toks: &Vec<Vec<char>>) -> (r: (Option<String>, Option<String>, Option<u32>, Option<String>))
    ensures
        ({
            let t = timing_from(views(toks@), 0, no_timing());
            opt_view(r.0) == t.interval && opt_view(r.1) == t.timeout && r.2 == t.retries
                && opt_view(r.3) == t.start_period
        }),
{
    let mut interval: Option<String> = None;
    let mut timeout: Option<String> = None;
    let mut retries: Option<u32> = None;
    let mut start_period: Option<String> = None;
    let every = lit("every");
    let wait = lit("wait");
    let repeat = lit("repeat");
    let after = lit("after");
    let ghost ts = views(toks@);
    let mut i: usize = 0;
    while i < toks.len()
        invariant
            ts == views(toks@),
            every@ == "every"@,
            wait@ == "wait"@,
            repeat@ == "repeat"@,
            after@ == "after"@,
            i <= toks.len() + 1,
            timing_from(ts, 0, no_timing()) == timing_from(
                ts,
                i as int,
                Timing {
                    interval: opt_view(interval),
                    timeout: opt_view(timeout),
                    retries,
                    start_period: opt_view(start_period),
                },
            ),
        decreases toks.len() + 1 - i,
    {
        assert(ts[i as int] == toks@[i as int]@);
        if i + 1 < toks.len() {
            assert(ts[i as int + 1] == toks@[i as int + 1]@);
        }
        if i + 1 < toks.len() && eq_chars(&toks[i], &every) {
            interval = Some(string_of(&toks[i + 1]));
            i = i + 2;
        } else if i + 1 < toks.len() && eq_chars(&toks[i], &wait) {
            timeout = Some(string_of(&toks[i + 1]));
            i = i + 2;
        } else if i + 1 < toks.len() && eq_chars(&toks[i], &repeat) {
            retries = match parse_uint_exec(&toks[i + 1], 0xFFFF_FFFF) {
                Some(n) => Some(n as u32),
                None => None,
            };
            i = i + 2;
        } else if i + 1 < toks.len() && eq_chars(&toks[i], &after) {
            start_period = Some(string_of(&toks[i + 1]));
            i = i + 2;
        } else {
            i = i + 1;
        }
    }
    (interval, timeout, retries, start_period)
}

fn timing_line_exec(v: &Vec<char>, p: usize) -> (r: Option<(usize, (Option<String>, Option<String>, Option<u32>, Option<String>))>)
    requires
        p <= v.len(),
    ensures
        r matches Some((q, x)) ==> timing_line(v@, p as int) matches Some((q2, t)) && q2 == q
            && opt_view(x.0) == t.interval && opt_view(x.1) == t.timeout && x.2 == t.retries
            && opt_view(x.3) == t.start_period && q <= v.len(),
        r is None ==> timing_line(v@, p as int) is None,
{
    proof {
        lemma_skip_class(v@, p as int, CharClass::SpaceTab);
        reveal_strlit("healthcheck");
        reveal_strlit("healthcheck ");
    }
    let t0 = skip_class_exec(v, p, CharClass::SpaceTab);
    let n = nl_exec();
    proof {
        lemma_find_from(v@, nl(), t0 as int);
    }
    let le = match find_from_exec(v, &n, t0) {
        Some(j) => j,
        None => v.len(),
    };
    let next_line = slice_of(v, t0, le);
    let part = if starts_with_exec(&next_line, &lit("healthcheck")) {
        trim_exec(&slice_of(&next_line, 11, next_line.len()))
    } else {
        next_line
    };
    if !(contains_exec(&part, &lit("every ")) || contains_exec(&part, &lit("wait "))
        || contains_exec(&part, &lit("repeat ")) || contains_exec(&part, &lit("after "))) {
        return None;
    }
    let a = ws_end_exec(v, p);
    let b = if matches_at_exec(v, &lit("healthcheck "), a) {
        a + 12
    } else {
        a
    };
    proof {
        lemma_find_from(v@, nl(), b as int);
    }
    match find_from_exec(v, &n, b) {
        None => None,
        Some(c) => {
            let toks = words_exec(&slice_of(v, b, c));
            Some((c + 1, timing_exec(&toks)))
        },
    }
}

fn healthcheck_line_exec(v: &Vec<char>, p: usize) -> (r: Option<(usize, HealthCheck)>)
    requires
        p <= v.len(),
    ensures
        r matches Some((q, x)) ==> healthcheck_line(v@, p as int) == Some((q as int, x@)) && q
            <= v.len(),
        r is None ==> healthcheck_line(v@, p as int) is None,
{
    let a = ws_end_exec(v, p);
    match tag_end_exec(v, a, &lit("healthcheck with ")) {
        None => None,
        Some(b) => match quoted_exec(v, b) {
            None => None,
            Some((c, test)) => match eol_end_exec(v, c) {
                None => None,
                Some(d) => {
                    let (e, t) = match timing_line_exec(v, d) {
                        Some((e, t)) => (e, t),
                        None => (d, (None, None, None, None)),
                    };
                    Some(
                        (
                            e,
                            HealthCheck {
                                test: string_of(&test),
                                interval: t.0,
                                timeout: t.1,
                                retries: t.2,
                                start_period: t.3,
                            },
                        ),
                    )
                },
            },
        },
    }
}

fn env_source_exec(raw: &Vec<char>) -> (r: Option<EnvSource>)
    ensures
        r matches Some(e) ==> env_source(raw@) == Some(e@),
        r is None ==> env_source(raw@) is None,
{
    proof {
        reveal_strlit("${");
        reveal_strlit("}");
    }
    let r = trim_exec(raw);
    let is_ref = starts_with_exec(&r, &lit("${")) && ends_with_exec(&r, &lit("}"));
    proof {
        if is_ref {
            assert(r@.subrange(0, 2)[1] == '{');
            assert(r@.subrange(r@.len() - 1, r@.len() as int)[0] == '}');
            assert(r@.len() >= 3);
        }
    }
    let inner = if is_ref {
        slice_of(&r, 2, r.len() - 1)
    } else {
        slice_of(&r, 0, r.len())
    };
    assert(r@.subrange(0, r@.len() as int) =~= r@);
    if !is_ref && contains_exec(&inner, &lit("=")) {
        match split_once_exec(&inner, '=') {
            Some((before, after)) => {
                let k = trim_exec(&before);
                let secret = k.len() > 0 && k[0] == '*';
                let key = trim_start_class_exec(&k, CharClass::Exactly('*'));
                Some(
                    EnvSource::Inline {
                        key: string_of(&key),
                        value: string_of(&trim_exec(&after)),
                        secret,
                    },
                )
            },
            None => None,
        }
    } else {
        let n = count_char_exec(&inner, '@');
        if n >= 2 {
            match rfind_char_exec(&inner, '@') {
                Some(last) => {
                    let head = slice_of(&inner, 0, last);
                    match rfind_char_exec(&head, '@') {
                        Some(second) => {
                            let section = trim_exec(&slice_of(&inner, second + 1, last));
                            assert(head@ == inner@.subrange(0, last as int));
                            Some(
                                EnvSource::VarRef {
                                    key: string_of(&trim_exec(&slice_of(&inner, 0, second))),
                                    file: string_of(
                                        &trim_exec(&slice_of(&inner, last + 1, inner.len())),
                                    ),
                                    section: if section.len() == 0 {
                                        None
                                    } else {
                                        Some(string_of(&section))
                                    },
                                },
                            )
                        },
                        None => None,
                    }
                },
                None => None,
            }
        } else if n == 1 {
            match split_once_exec(&inner, '@') {
                Some((name, file)) => {
                    let tn = trim_exec(&name);
                    Some(
                        EnvSource::File {
                            file: string_of(&trim_exec(&file)),
                            section: if tn.len() > 0 {
                                Some(string_of(&tn))
                            } else {
                                None
                            },
                        },
                    )
                },
                None => None,
            }
        } else {
            None
        }
    }
}

fn env_sources_exec(items: &Vec<Vec<char>>) -> (r: Vec<EnvSource>)
    ensures
        r@.map_values(|e: EnvSource| e@) == env_sources(views(items@)),
{
    let mut r: Vec<EnvSource> = Vec::new();
    let mut i: usize = 0;
    while i < items.len()
        invariant
            i <= items.len(),
            r@.map_values(|e: EnvSource| e@) == env_sources(views(items@).take(i as int)),
        decreases items.len() - i,
    {
        assert(views(items@).take(i as int + 1).drop_last() =~= views(items@).take(i as int));
        assert(views(items@).take(i as int + 1).last() == items@[i as int]@);
        let ghost prev = r@.map_values(|e: EnvSource| e@);
        match env_source_exec(&trim_exec(&items[i])) {
            Some(e) => {
                r.push(e);
                assert(r@.map_values(|e: EnvSource| e@) =~= prev.push(e@));
            },
            None => {},
        }
        i = i + 1;
    }
    assert(views(items@).take(items.len() as int) =~= views(items@));
    r
}


fn serve_body_exec(rest: &Vec<char>, name: Option<String>, end: usize) -> (r: Option<(usize, ServeConfig)>)
    ensures
        r matches Some((q, x)) ==> serve_body(rest@, opt_view(name), end as int) == Some(
            (q as int, x@),
        ) && q == end,
        r is None ==> serve_body(rest@, opt_view(name), end as int) is None,
{
    proof {
        reveal_strlit(" through ");
        reveal_strlit(" use ");
    }
    let through = lit(" through ");
    proof {
        lemma_find_from(rest@, " through "@, 0);
    }
    let (addr, mw) = match find_exec(rest, &through) {
        Some(k) => {
            let n = rest.len();
            assert(k + 9 <= n);
            (slice_of(rest, 0, k), Some(slice_of(rest, k + 9, n)))
        },
        None => (slice_of(rest, 0, rest.len()), None),
    };
    assert(rest@.subrange(0, rest@.len() as int) =~= rest@);
    let (mws, use_service) = match mw {
        Some(m) => {
            let u_pat = lit(" use ");
            proof {
                lemma_find_from(m@, " use "@, 0);
            }
            match find_exec(&m, &u_pat) {
                Some(u) => (
                    trim_all(&split_char_exec(&slice_of(&m, 0, u), ',')),
                    Some(string_of(&trim_exec(&slice_of(&m, u + 5, m.len())))),
                ),
                None => (trim_all(&split_char_exec(&m, ',')), None),
            }
        },
        None => {
            let none: Vec<String> = Vec::new();
            assert(strs_view(none@) =~= Seq::<Seq<char>>::empty());
            (none, None)
        },
    };
    match rfind_char_exec(&addr, ':') {
        Some(k) => match parse_uint_exec(&trim_exec(&slice_of(&addr, k + 1, addr.len())), 65535) {
            None => None,
            Some(port) => Some(
                (
                    end,
                    ServeConfig {
                        name,
                        subdomain: string_of(&trim_exec(&slice_of(&addr, 0, k))),
                        port: port as u16,
                        api_internal: false,
                        middlewares: mws,
                        use_service,
                    },
                ),
            ),
        },
        None => Some(
            (
                end,
                ServeConfig {
                    name,
                    subdomain: string_of(&trim_exec(&addr)),
                    port: 0,
                    api_internal: true,
                    middlewares: mws,
                    use_service,
                },
            ),
        ),
    }
}

fn serve_line_exec(v: &Vec<char>, p: usize) -> (r: Option<(usize, ServeConfig)>)
    requires
        p <= v.len(),
    ensures
        r matches Some((q, x)) ==> serve_line(v@, p as int) == Some((q as int, x@)) && q
            <= v.len(),
        r is None ==> serve_line(v@, p as int) is None,
{
    proof {
        reveal_strlit("as ");
        reveal_strlit(" as ");
    }
    let a = ws_end_exec(v, p);
    match tag_end_exec(v, a, &lit("serve ")) {
        None => None,
        Some(b) => {
            let head: Option<(usize, Option<String>)> = if matches_at_exec(v, &lit("as "), b) {
                Some((b + 3, None))
            } else {
                match ident_end_exec(v, b) {
                    None => None,
                    Some(e) => match tag_end_exec(v, e, &lit(" as ")) {
                        None => None,
                        Some(f) => Some((f, Some(string_of(&slice_of(v, b, e))))),
                    },
                }
            };
            match head {
                None => None,
                Some((c, name)) => {
                    let n = nl_exec();
                    proof {
                        lemma_find_from(v@, nl(), c as int);
                    }
                    match find_from_exec(v, &n, c) {
                        None => None,
                        Some(j) => serve_body_exec(&slice_of(v, c, j), name, j + 1),
                    }
                },
            }
        },
    }
}

fn route_add_exec(line: &Vec<char>) -> (r: Option<RouteAdd>)
    ensures
        r matches Some(x) ==> route_add_of(line@) == Some(x@),
        r is None ==> route_add_of(line@) is None,
{
    match split_once_exec(line, ':') {
        None => None,
        Some((b, a)) => {
            let before = trim_exec(&b);
            let value = parse_or_string(&trim_exec(&a));
            let sp = lit(" ");
            proof {
                lemma_find_from(before@, " "@, 0);
                reveal_strlit(" ");
            }
            match find_exec(&before, &sp) {
                Some(k) => Some(
                    RouteAdd {
                        route_name: Some(string_of(&slice_of(&before, 0, k))),
                        key: string_of(&trim_exec(&slice_of(&before, k + 1, before.len()))),
                        value,
                    },
                ),
                None => Some(RouteAdd { route_name: None, key: string_of(&before), value }),
            }
        },
    }
}

fn raw_exec(line: &Vec<char>) -> (r: Option<(String, Yaml)>)
    ensures
        r matches Some((k, v)) ==> raw_of(line@) == Some((k@, v@)),
        r is None ==> raw_of(line@) is None,
{
    match split_once_exec(line, ':') {
        None => None,
        Some((k, v)) => Some((string_of(&trim_exec(&k)), parse_or_string(&trim_exec(&v)))),
    }
}

/// A directive line as read (see `Directive`).
enum DirectiveItem {
    Limit(ResourceLimit),
    Network(String),
    Volume(Volume),
    Expose(Vec<u16>),
    User(String),
    Depends(Vec<Dependency>),
    Health(HealthCheck),
    EnvFrom(Vec<EnvSource>),
    Serve(ServeConfig),
    Route(RouteAdd),
    NetworkConfig(String),
    Raw(String, Yaml),
}

impl View for DirectiveItem {
    type V = Directive;

    closed spec fn view(&self) -> Directive {
        match self {
            DirectiveItem::Limit(l) => Directive::Limit(l@),
            DirectiveItem::Network(n) => Directive::Network(n@),
            DirectiveItem::Volume(v) => Directive::Volume(v@),
            DirectiveItem::Expose(ps) => Directive::Expose(ps@),
            DirectiveItem::User(u) => Directive::User(u@),
            DirectiveItem::Depends(ds) => Directive::Depends(ds@.map_values(|d: Dependency| d@)),
            DirectiveItem::Health(h) => Directive::Health(h@),
            DirectiveItem::EnvFrom(es) => Directive::EnvFrom(es@.map_values(|e: EnvSource| e@)),
            DirectiveItem::Serve(s) => Directive::Serve(s@),
            DirectiveItem::Route(r) => Directive::Route(r@),
            DirectiveItem::NetworkConfig(n) => Directive::NetworkConfig(n@),
            DirectiveItem::Raw(k, v) => Directive::Raw(k@, v@),
        }
    }
}

fn directive_tail_exec(v: &Vec<char>, p: usize) -> (r: Option<(usize, DirectiveItem)>)
    requires
        p <= v.len(),
    ensures
        r matches Some((q, d)) ==> directive_tail(v@, p as int) == Some((q as int, d@)) && q
            <= v.len(),
        r is None ==> directive_tail(v@, p as int) is None,
{
    if let Some((q, c)) = tagged_line_exec(v, p, &lit("network-config from ")) {
        Some((q, DirectiveItem::NetworkConfig(string_of(&trim_exec(&c)))))
    } else if let Some((q, c)) = tagged_line_exec(v, p, &lit("raw ")) {
        match raw_exec(&c) {
            Some((k, x)) => Some((q, DirectiveItem::Raw(k, x))),
            None => None,
        }
    } else {
        None
    }
}

fn directive_exec(v: &Vec<char>, p: usize) -> (r: Option<(usize, DirectiveItem)>)
    requires
        p <= v.len(),
    ensures
        r matches Some((q, d)) ==> directive(v@, p as int) == Some((q as int, d@)) && q
            <= v.len(),
        r is None ==> directive(v@, p as int) is None,
{
    if let Some((q, l)) = limit_line_exec(v, p) {
        Some((q, DirectiveItem::Limit(l)))
    } else if let Some((q, c)) = tagged_line_exec(v, p, &lit("network ")) {
        Some((q, DirectiveItem::Network(string_of(&trim_exec(&c)))))
    } else if let Some((q, x)) = volume_line_exec(v, p) {
        Some((q, DirectiveItem::Volume(x)))
    } else if let Some((q, ps)) = expose_line_exec(v, p) {
        Some((q, DirectiveItem::Expose(ps)))
    } else if let Some((q, c)) = tagged_line_exec(v, p, &lit("user: ")) {
        Some((q, DirectiveItem::User(string_of(&trim_exec(&c)))))
    } else if let Some((q, c)) = tagged_line_exec(v, p, &lit("depends_on ")) {
        let items = split_char_exec(&c, ',');
        Some((q, DirectiveItem::Depends(dependencies_exec(&items))))
    } else if let Some((q, h)) = healthcheck_line_exec(v, p) {
        Some((q, DirectiveItem::Health(h)))
    } else if let Some((q, c)) = tagged_line_exec(v, p, &lit("env from ")) {
        let items = split_char_exec(&c, ',');
        Some((q, DirectiveItem::EnvFrom(env_sources_exec(&items))))
    } else if let Some((q, sv)) = serve_line_exec(v, p) {
        Some((q, DirectiveItem::Serve(sv)))
    } else if let Some((q, c)) = tagged_line_exec(v, p, &lit("route_add ")) {
        match route_add_exec(&c) {
            Some(ra) => Some((q, DirectiveItem::Route(ra))),
            None => directive_tail_exec(v, p),
        }
    } else {
        directive_tail_exec(v, p)
    }
}


fn apply_directive_exec(b: &mut ServiceBlock, last: &mut Option<String>, d: DirectiveItem)
    ensures
        (final(b)@, opt_view(*final(last))) == apply_directive(old(b)@, opt_view(*old(last)), d@),
{
    let ghost b0 = b@;
    match d {
        DirectiveItem::Limit(l) => {
            b.limit = Some(l);
        },
        DirectiveItem::Network(n) => {
            b.networks.push(n);
            assert(b@.networks =~= b0.networks.push(n@));
        },
        DirectiveItem::Volume(x) => {
            b.volumes.push(x);
            assert(b@.volumes =~= b0.volumes.push(x@));
        },
        DirectiveItem::Expose(ps) => {
            let mut ps = ps;
            let ghost ps0 = ps@;
            b.expose.append(&mut ps);
            assert(b@.expose =~= b0.expose + ps0);
        },
        DirectiveItem::User(u) => {
            b.user = Some(u);
        },
        DirectiveItem::Depends(ds) => {
            let ghost dv = ds@.map_values(|x: Dependency| x@);
            let mut ds = ds;
            b.depends_on.append(&mut ds);
            assert(b@.depends_on =~= b0.depends_on + dv);
        },
        DirectiveItem::Health(h) => {
            b.healthcheck = Some(h);
        },
        DirectiveItem::EnvFrom(es) => {
            let ghost ev = es@.map_values(|x: EnvSource| x@);
            let mut es = es;
            b.env_from.append(&mut es);
            assert(b@.env_from =~= b0.env_from + ev);
        },
        DirectiveItem::Serve(sv) => {
            *last = Some(
                match &sv.name {
                    Some(n) => n.clone(),
                    None => sv.subdomain.clone(),
                },
            );
            let ghost svv = sv@;
            b.serve.push(sv);
            assert(b@.serve =~= b0.serve.push(svv));
        },
        DirectiveItem::Route(ra) => {
            let mut ra = ra;
            if ra.route_name.is_none() {
                ra.route_name = copy_opt(last);
            }
            let ghost rav = ra@;
            b.route_add.push(ra);
            assert(b@.route_add =~= b0.route_add.push(rav));
        },
        DirectiveItem::NetworkConfig(n) => {
            b.network_config = Some(n);
        },
        DirectiveItem::Raw(k, x) => {
            b.raw.insert(k, x);
        },
    }
}

/// The text starts an `end` line at `t`.
fn is_end_line_exec(v: &Vec<char>, t: usize) -> (r: bool)
    requires
        t <= v.len(),
    ensures
        r == is_end_line(v@, t as int),
{
    proof {
        reveal_strlit("end");
    }
    let whole = v.len() - t == 3 && matches_at_exec(v, &lit("end"), t);
    assert(whole == (v@.subrange(t as int, v@.len() as int) == "end"@)) by {
        if v.len() - t == 3 {
            assert(v@.subrange(t as int, t + 3) =~= v@.subrange(t as int, v@.len() as int));
        }
    }
    matches_at_exec(v, &lit("end\n"), t) || matches_at_exec(v, &lit("end\r\n"), t) || whole
}

/// End of the raw YAML that starts at `pos` (see `raw_end`).
fn raw_end_exec(v: &Vec<char>, pos: usize) -> (e: usize)
    requires
        pos <= v.len(),
    ensures
        e == raw_end(v@, pos as int),
{
    let container = lit("container ");
    let n = nl_exec();
    let mut i = pos;
    loop
        invariant
            i <= v.len(),
            raw_end(v@, i as int) == raw_end(v@, pos as int),
            container@ == "container "@,
            n@ == nl(),
        decreases v.len() - i,
    {
        if i >= v.len() {
            return v.len();
        }
        let t = skip_class_exec(v, i, CharClass::Multispace);
        if matches_at_exec(v, &container, t) {
            return i;
        }
        proof {
            lemma_find_from(v@, nl(), i as int);
        }
        match find_from_exec(v, &n, i) {
            Some(j) => {
                i = j + 1;
            },
            None => {
                return v.len();
            },
        }
    }
}

/// The directives of a block from `p` on (see `block_loop`).
#[verifier::rlimit(40)]
fn block_loop_exec(v: &Vec<char>, start: usize, blk: ServiceBlock, prev: Option<String>) -> (r: (
    usize,
    ServiceBlock,
))
    requires
        start <= v.len(),
    ensures
        block_loop(v@, start as int, blk@, opt_view(prev)) == (r.0 as int, r.1@),
        r.0 <= v.len(),
{
    let container = lit("container ");
    let n = nl_exec();
    let mut p = start;
    let mut b = blk;
    let mut last = prev;
    loop
        invariant
            p <= v.len(),
            block_loop(v@, p as int, b@, opt_view(last)) == block_loop(
                v@,
                start as int,
                blk@,
                opt_view(prev),
            ),
            container@ == "container "@,
            n@ == nl(),
        decreases v.len() - p,
    {
        let p1 = skip_class_exec(v, p, CharClass::LineBreak);
        proof {
            lemma_skip_class(v@, p as int, CharClass::LineBreak);
        }
        if p1 >= v.len() || matches_at_exec(v, &container, p1) {
            return (p1, b);
        }
        let t = skip_class_exec(v, p1, CharClass::SpaceTab);
        proof {
            lemma_skip_class(v@, p1 as int, CharClass::SpaceTab);
            lemma_find_from(v@, nl(), p1 as int);
        }
        if is_end_line_exec(v, t) {
            let after = match find_from_exec(v, &n, p1) {
                Some(j) => j + 1,
                None => v.len(),
            };
            let e = raw_end_exec(v, after);
            proof {
                lemma_raw_end(v@, after as int);
            }
            let rb = trim_exec(&slice_of(v, after, e));
            if rb.len() > 0 {
                b.raw_compose_block = Some(string_of(&rb));
            }
            return (e, b);
        }
        proof {
            lemma_directive(v@, p1 as int);
        }
        match directive_exec(v, p1) {
            Some((q, d)) => {
                apply_directive_exec(&mut b, &mut last, d);
                p = q;
            },
            None => match find_from_exec(v, &n, p1) {
                Some(j) => {
                    p = j + 1;
                },
                None => {
                    return (p1, b);
                },
            },
        }
    }
}

/// The `container` line at `p` (see `container_line`).
fn container_line_exec(v: &Vec<char>, p: usize) -> (r: Result<(usize, String, String), (usize, ErrorKind)>)
    requires
        p <= v.len(),
    ensures
        r matches Ok((j, n, i)) ==> container_line(v@, p as int) == Ok::<
            (int, Seq<char>, Seq<char>),
            (int, ErrorKind),
        >((j as int, n@, i@)) && j <= v.len(),
        r matches Err((q, k)) ==> container_line(v@, p as int) == Err::<
            (int, Seq<char>, Seq<char>),
            (int, ErrorKind),
        >((q as int, k)) && q <= v.len(),
{
    proof {
        reveal_strlit("image");
        reveal_strlit(" as ");
        reveal_strlit(":");
    }
    let a = ws_end_exec(v, p);
    match tag_end_exec(v, a, &lit("container ")) {
        None => Err((a, ErrorKind::Tag)),
        Some(b0) => {
            let b = ws_end_exec(v, b0);
            let c = if matches_at_exec(v, &lit("image"), b) {
                b + 5
            } else {
                b
            };
            let d = ws_end_exec(v, c);
            proof {
                lemma_find_from(v@, " as "@, d as int);
            }
            match find_from_exec(v, &lit(" as "), d) {
                None => Err((d, ErrorKind::TakeUntil)),
                Some(e) => {
                    let g = ws_end_exec(v, e + 4);
                    match ident_end_exec(v, g) {
                        None => Err((g, ErrorKind::TakeWhile1)),
                        Some(h) => {
                            let i = if matches_at_exec(v, &lit(":"), h) {
                                h + 1
                            } else {
                                h
                            };
                            match eol_end_exec(v, i) {
                                None => Err((i, ErrorKind::CrLf)),
                                Some(j) => Ok(
                                    (
                                        j,
                                        string_of(&slice_of(v, g, h)),
                                        string_of(&trim_exec(&slice_of(v, d, e))),
                                    ),
                                ),
                            }
                        },
                    }
                },
            }
        },
    }
}

/// 1-based line number of position `q` of `v`.
fn line_at_exec(v: &Vec<char>, q: usize) -> (r: usize)
    requires
        q <= v.len(),
        v.len() < usize::MAX,
    ensures
        r == line_at(v@, q as int),
{
    count_char_exec(&slice_of(v, 0, q), '\n') + 1
}

/// The message for a `container` line that does not parse (see `error_message`).
fn error_message_exec(file: &str, v: &Vec<char>, q: usize, k: ErrorKind) -> (r: String)
    requires
        q <= v.len(),
        v.len() < usize::MAX,
    ensures
        r@ == error_message(file@, v@, q as int, k),
{
    let line = line_at_exec(v, q);
    let ls = lines_exec(&slice_of(v, q, v.len()));
    let first = if ls.len() > 0 {
        trim_exec(&ls[0])
    } else {
        let e: Vec<char> = Vec::new();
        trim_exec(&e)
    };
    proof {
        if ls.len() == 0 {
            assert(Seq::<char>::empty() =~= seq![]);
        }
    }
    let quoted = debug_str(string_of(&first).as_str());
    let mut m = chars_of(file);
    append(&mut m, &lit(":"));
    append(&mut m, &dec_exec(line as u64));
    append(&mut m, &lit(": parse error ("));
    append(&mut m, &chars_of_string(&k.name()));
    append(&mut m, &lit("): "));
    append(&mut m, &chars_of_string(&quoted));
    string_of(&m)
}

/// A block as declared by its `container` line (see `fresh_block`).
fn fresh_block_exec(name: String, image: String) -> (r: ServiceBlock)
    ensures
        r@ == fresh_block(name@, image@),
{
    let r = ServiceBlock {
        source_file: String::new(),
        source_line: 0,
        name,
        image,
        limit: None,
        networks: Vec::new(),
        volumes: Vec::new(),
        expose: Vec::new(),
        user: None,
        depends_on: Vec::new(),
        healthcheck: None,
        env_from: Vec::new(),
        serve: Vec::new(),
        route_add: Vec::new(),
        network_config: None,
        raw: StrMap::new(),
        raw_compose_block: None,
    };
    assert(r@.networks =~= seq![]);
    assert(r@.volumes =~= seq![]);
    assert(r@.expose =~= seq![]);
    assert(r@.depends_on =~= seq![]);
    assert(r@.env_from =~= seq![]);
    assert(r@.serve =~= seq![]);
    assert(r@.route_add =~= seq![]);
    r
}

/// Parses a service file: `container` blocks with their directives, and the raw
/// YAML after an `end` line. A block's `source_file` is `filename` and its
/// `source_line` the line of its `container` keyword. A `container` line that
/// does not parse fails the whole file with
/// `<filename>:<line>: parse error (<kind>): "<line text>"`.
pub fn parse_service_file(input: &str, filename: &str) -> (r: Result<Vec<ServiceBlock>, String>)
    requires
        input@.len() + 1 < usize::MAX,
    ensures
        r matches Ok(bs) ==> parse_service_spec(input@, filename@) == Ok::<
            Seq<ServiceBlockV>,
            Seq<char>,
        >(bs@.map_values(|b: ServiceBlock| b@)),
        r matches Err(e) ==> parse_service_spec(input@, filename@) == Err::<
            Seq<ServiceBlockV>,
            Seq<char>,
        >(e@),
{
    let mut v = chars_of(input);
    let n = nl_exec();
    if !ends_with_exec(&v, &n) {
        v.push('\n');
    }
    assert(v@ == with_final_newline(input@));
    let mut blocks: Vec<ServiceBlock> = Vec::new();
    let mut p: usize = 0;
    assert(blocks@.map_values(|b: ServiceBlock| b@) =~= Seq::<ServiceBlockV>::empty());
    loop
        invariant
            p <= v.len(),
            v.len() < usize::MAX,
            v@ == with_final_newline(input@),
            file_loop(v@, p as int, blocks@.map_values(|b: ServiceBlock| b@), filename@)
                == parse_service_spec(input@, filename@),
        decreases v.len() - p,
    {
        let p1 = skip_class_exec(&v, p, CharClass::LineBreak);
        proof {
            lemma_skip_class(v@, p as int, CharClass::LineBreak);
        }
        if p1 >= v.len() {
            return Ok(blocks);
        }
        proof {
            lemma_container_line(v@, p1 as int);
        }
        match container_line_exec(&v, p1) {
            Err((q, k)) => {
                return Err(error_message_exec(filename, &v, q, k));
            },
            Ok((j, name, image)) => {
                let fresh = fresh_block_exec(name, image);
                proof {
                    lemma_block_loop(v@, j as int, fresh@, None);
                }
                let (e, blk) = block_loop_exec(&v, j, fresh, None);
                let mut blk = blk;
                blk.source_file = filename.to_owned();
                blk.source_line = line_at_exec(&v, p1);
                let ghost prev = blocks@.map_values(|b: ServiceBlock| b@);
                blocks.push(blk);
                assert(blocks@.map_values(|b: ServiceBlock| b@) =~= prev.push(blk@));
                p = e;
            },
        }
    }
}

/// The 1-based line of `original` on which its tail `remaining` starts: one
/// more than the line feeds before it.
pub fn line_of(original: &str, remaining: &str) -> (r: usize)
    requires
        original@.len() < usize::MAX,
    ensures
        remaining@.len() <= original@.len() ==> r == line_at(
            original@,
            original@.len() - remaining@.len(),
        ),
        remaining@.len() > original@.len() ==> r == 1,
{
    let v = chars_of(original);
    let rest = chars_of(remaining);
    let offset = if rest.len() <= v.len() {
        v.len() - rest.len()
    } else {
        0
    };
    proof {
        if rest.len() > v.len() {
            assert(v@.subrange(0, 0) =~= Seq::<char>::empty());
        }
    }
    line_at_exec(&v, offset)
}

/// The text after its leading line breaks (`\n` and `\r`).
pub fn skip_empty_lines(input: &str) -> (r: String)
    ensures
        r@ == input@.subrange(
            skip_class(input@, 0, CharClass::LineBreak),
            input@.len() as int,
        ),
{
    let v = chars_of(input);
    let p = skip_class_exec(&v, 0, CharClass::LineBreak);
    proof {
        lemma_skip_class(v@, 0, CharClass::LineBreak);
    }
    string_of(&slice_of(&v, p, v.len()))
}

/// Splits the text after an `end` line into the raw YAML (everything before the
/// line, or run of blank lines, that starts the next `container` block) and
/// the rest.
pub fn collect_raw_block(input: &str) -> (r: (String, String))
    ensures
        r.0@ == input@.subrange(0, raw_end(input@, 0)),
        r.1@ == input@.subrange(raw_end(input@, 0), input@.len() as int),
{
    let v = chars_of(input);
    let e = raw_end_exec(&v, 0);
    proof {
        lemma_raw_end(v@, 0);
    }
    (string_of(&slice_of(&v, 0, e)), string_of(&slice_of(&v, e, v.len())))
}

} // verus!
