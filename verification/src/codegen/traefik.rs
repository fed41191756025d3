//! Traefik configuration: the dynamic file (routers and load-balancer services)
//! and the static file of the router container.
use vstd::prelude::*;
use crate::yaml::map_get;
use crate::ast::{
    RouteAdd, RouteAddV, ServeConfig, ServeConfigV, ServiceBlock, ServiceBlockV,
    TraefikDefaults, TraefikDefaultsV, opt_view, string_eq_str,
};
use crate::text::{
    CharClass, append, chars_of, chars_of_string, dec, dec_exec, eq_chars, find, find_exec,
    lemma_find_from, lemma_skip_class, lines, lines_exec, lit, replace_all, replace_all_exec,
    skip_class, skip_class_exec, slice_of, string_of, trim, trim_end_class, trim_end_class_exec,
    trim_exec, trim_start_class, utf8_size, utf8_size_upto, views,
};
use crate::yaml::{
    Yaml, YamlEntry, YamlV, entries_model, items_model, lemma_map_model, map_insert,
    map_insert_exec, mapping, render_yaml, sequence, set_nested, str_entry, str_value, yaml_copy,
    yaml_render,
};
pub use crate::yaml::set_nested_value;

verus! {

/// A string scalar.
pub open spec fn ys(s: Seq<char>) -> YamlV {
    YamlV::Str(s)
}

/// Router name: `{service}-{name}` for a named serve, the service name for the
/// root domain (`.`), otherwise the subdomain.
pub open spec fn router_name_of(service_name: Seq<char>, serve: ServeConfigV) -> Seq<char> {
    match serve.name {
        Some(n) => service_name + "-"@ + n,
        None => if serve.subdomain == "."@ {
            service_name
        } else {
            serve.subdomain
        },
    }
}

/// The `Host` rule of a serve: the bare domain for `.`, else `subdomain.domain`.
pub open spec fn base_rule_of(serve: ServeConfigV, domain: Seq<char>) -> Seq<char> {
    if serve.subdomain == "."@ {
        "Host(`"@ + domain + "`)"@
    } else {
        "Host(`"@ + serve.subdomain + "."@ + domain + "`)"@
    }
}

/// A middleware reference: the name as written in the `through` clause.
pub open spec fn middleware_ref(mw: Seq<char>) -> Seq<char> {
    mw
}

/// The entries of a router: `rule`, `entryPoints` (when there are any), `service`,
/// `middlewares` (when there are any) and `tls.certResolver` (when one is set).
pub open spec fn router_entries(
    serve: ServeConfigV,
    rule: Seq<char>,
    d: TraefikDefaultsV,
    svc_name: Seq<char>,
) -> Seq<(YamlV, YamlV)> {
    seq![(ys("rule"@), ys(rule))] + (if d.entry_points.len() > 0 {
        seq![(ys("entryPoints"@), YamlV::Sequence(d.entry_points.map_values(|e: Seq<char>| ys(e))))]
    } else {
        seq![]
    }) + seq![(ys("service"@), ys(svc_name))] + (if serve.middlewares.len() > 0 {
        seq![
            (
                ys("middlewares"@),
                YamlV::Sequence(serve.middlewares.map_values(|m: Seq<char>| ys(middleware_ref(m)))),
            ),
        ]
    } else {
        seq![]
    }) + (match d.cert_resolver {
        Some(r) => seq![(ys("tls"@), YamlV::Mapping(seq![(ys("certResolver"@), ys(r))]))],
        None => seq![],
    })
}

/// The value a `route_add` writes: for the key `rule`, a string value has each
/// `@` replaced by the serve's base rule.
pub open spec fn route_add_value(ra: RouteAddV, rule: Seq<char>) -> YamlV {
    if ra.key == "rule"@ {
        match ra.value {
            YamlV::Str(s) => YamlV::Str(replace_all(s, "@"@, rule)),
            v => v,
        }
    } else {
        ra.value
    }
}

/// A router after one `route_add`, written at its dotted key.
pub open spec fn apply_route_add_spec(
    router: Seq<(YamlV, YamlV)>,
    ra: RouteAddV,
    rule: Seq<char>,
) -> Seq<(YamlV, YamlV)> {
    match set_nested(YamlV::Mapping(router), ra.key, route_add_value(ra, rule)).0 {
        YamlV::Mapping(m) => m,
        _ => seq![],
    }
}

/// A router after the first `n` `route_add` entries that name `key`, in order.
pub open spec fn apply_route_adds(
    router: Seq<(YamlV, YamlV)>,
    ras: Seq<RouteAddV>,
    n: int,
    key: Seq<char>,
    rule: Seq<char>,
) -> Seq<(YamlV, YamlV)>
    decreases n,
{
    if n <= 0 || n > ras.len() {
        router
    } else {
        let r = apply_route_adds(router, ras, n - 1, key, rule);
        if ras[n - 1].route_name == Some(key) {
            apply_route_add_spec(r, ras[n - 1], rule)
        } else {
            r
        }
    }
}

/// `route_add` entries that name another route leave a router as it was.
pub proof fn lemma_route_adds_other(
    router: Seq<(YamlV, YamlV)>,
    ras: Seq<RouteAddV>,
    n: int,
    key: Seq<char>,
    rule: Seq<char>,
)
    requires
        forall|i: int| 0 <= i < n && i < ras.len() ==> (#[trigger] ras[i]).route_name != Some(key),
    ensures
        apply_route_adds(router, ras, n, key, rule) == router,
    decreases n,
{
    if 0 < n <= ras.len() {
        lemma_route_adds_other(router, ras, n - 1, key, rule);
    }
}

/// A router takes exactly the `route_add` entries that name its route: with
/// the one at index `j` the only one among the first `n` that does, the
/// router is its generated entries with that one `route_add` written in.
pub proof fn lemma_route_add_single(
    router: Seq<(YamlV, YamlV)>,
    ras: Seq<RouteAddV>,
    n: int,
    key: Seq<char>,
    rule: Seq<char>,
    j: int,
)
    requires
        0 <= j < n <= ras.len(),
        ras[j].route_name == Some(key),
        forall|i: int| 0 <= i < n && i != j ==> (#[trigger] ras[i]).route_name != Some(key),
    ensures
        apply_route_adds(router, ras, n, key, rule) == apply_route_add_spec(router, ras[j], rule),
    decreases n,
{
    if n == j + 1 {
        lemma_route_adds_other(router, ras, j, key, rule);
    } else {
        lemma_route_add_single(router, ras, n - 1, key, rule, j);
    }
}

/// After a serve of a service (other than a non-API serve of the router
/// container), its router holds just the generated entries when no
/// `route_add` of the service names that serve's route (its name, or its
/// subdomain when it has none).
pub proof fn lemma_serve_router_untouched(
    st: (Seq<(YamlV, YamlV)>, Seq<(YamlV, YamlV)>),
    service: ServiceBlockV,
    serve: ServeConfigV,
    router_container: Seq<char>,
    domain: Seq<char>,
    d: TraefikDefaultsV,
)
    requires
        !(service.name == router_container && !serve.api_internal),
        forall|i: int| 0 <= i < service.route_add.len() ==> (#[trigger] service.route_add[i]).route_name
            != Some(
            match serve.name {
                Some(n) => n,
                None => serve.subdomain,
            },
        ),
    ensures
        map_get(
            serve_step(st, service, serve, router_container, domain, d).0,
            ys(router_name_of(service.name, serve)),
        ) == Some(
            YamlV::Mapping(
                router_entries(
                    serve,
                    base_rule_of(serve, domain),
                    d,
                    if serve.api_internal {
                        "api@internal"@
                    } else {
                        router_name_of(service.name, serve) + "-service"@
                    },
                ),
            ),
        ),
{
    let rn = router_name_of(service.name, serve);
    let svc = if serve.api_internal {
        "api@internal"@
    } else {
        rn + "-service"@
    };
    let rule = base_rule_of(serve, domain);
    let key = match serve.name {
        Some(n) => n,
        None => serve.subdomain,
    };
    lemma_route_adds_other(
        router_entries(serve, rule, d, svc),
        service.route_add,
        service.route_add.len() as int,
        key,
        rule,
    );
    crate::yaml::lemma_map_get_insert(st.0, ys(rn), YamlV::Mapping(router_entries(serve, rule, d, svc)));
}

/// The load-balancer service of a serve: one server at `http://{service}:{port}`.
pub open spec fn lb_service(service_name: Seq<char>, port: u16) -> YamlV {
    YamlV::Mapping(
        seq![
            (
                ys("loadBalancer"@),
                YamlV::Mapping(
                    seq![
                        (
                            ys("servers"@),
                            YamlV::Sequence(
                                seq![
                                    YamlV::Mapping(
                                        seq![
                                            (
                                                ys("url"@),
                                                ys(
                                                    "http://"@ + service_name + ":"@ + dec(
                                                        port as nat,
                                                    ),
                                                ),
                                            ),
                                        ],
                                    ),
                                ],
                            ),
                        ),
                    ],
                ),
            ),
        ],
    )
}

/// The routers and services after one serve of a service. The router
/// container's serves yield routers only for the Traefik API; an API serve
/// routes to `api@internal` and has no load-balancer service.
pub open spec fn serve_step(
    st: (Seq<(YamlV, YamlV)>, Seq<(YamlV, YamlV)>),
    service: ServiceBlockV,
    serve: ServeConfigV,
    router_container: Seq<char>,
    domain: Seq<char>,
    d: TraefikDefaultsV,
) -> (Seq<(YamlV, YamlV)>, Seq<(YamlV, YamlV)>) {
    if service.name == router_container && !serve.api_internal {
        st
    } else {
        let rn = router_name_of(service.name, serve);
        let svc = if serve.api_internal {
            "api@internal"@
        } else {
            rn + "-service"@
        };
        let rule = base_rule_of(serve, domain);
        let key = match serve.name {
            Some(n) => n,
            None => serve.subdomain,
        };
        let router = apply_route_adds(
            router_entries(serve, rule, d, svc),
            service.route_add,
            service.route_add.len() as int,
            key,
            rule,
        );
        (
            map_insert(st.0, ys(rn), YamlV::Mapping(router)),
            if serve.api_internal {
                st.1
            } else {
                map_insert(st.1, ys(svc), lb_service(service.name, serve.port))
            },
        )
    }
}

/// After the first `n` serves of a service.
pub open spec fn serves_fold(
    st: (Seq<(YamlV, YamlV)>, Seq<(YamlV, YamlV)>),
    service: ServiceBlockV,
    n: int,
    router_container: Seq<char>,
    domain: Seq<char>,
    d: TraefikDefaultsV,
) -> (Seq<(YamlV, YamlV)>, Seq<(YamlV, YamlV)>)
    decreases n,
{
    if n <= 0 || n > service.serve.len() {
        st
    } else {
        serve_step(
            serves_fold(st, service, n - 1, router_container, domain, d),
            service,
            service.serve[n - 1],
            router_container,
            domain,
            d,
        )
    }
}

/// After the first `n` services.
pub open spec fn services_fold(
    services: Seq<ServiceBlockV>,
    n: int,
    router_container: Seq<char>,
    domain: Seq<char>,
    d: TraefikDefaultsV,
) -> (Seq<(YamlV, YamlV)>, Seq<(YamlV, YamlV)>)
    decreases n,
{
    if n <= 0 || n > services.len() {
        (seq![], seq![])
    } else {
        let s = services[n - 1];
        serves_fold(
            services_fold(services, n - 1, router_container, domain, d),
            s,
            s.serve.len() as int,
            router_container,
            domain,
            d,
        )
    }
}

/// The dynamic configuration: `http.routers` and `http.services`, each present
/// only when not empty.
pub open spec fn dynamic_config(
    services: Seq<ServiceBlockV>,
    router_container: Seq<char>,
    domain: Seq<char>,
    d: TraefikDefaultsV,
) -> YamlV {
    let (routers, svcs) = services_fold(
        services,
        services.len() as int,
        router_container,
        domain,
        d,
    );
    let http = (if routers.len() > 0 {
        seq![(ys("routers"@), YamlV::Mapping(routers))]
    } else {
        seq![]
    }) + (if svcs.len() > 0 {
        seq![(ys("services"@), YamlV::Mapping(svcs))]
    } else {
        seq![]
    });
    YamlV::Mapping(seq![(ys("http"@), YamlV::Mapping(http))])
}

/// The default static configuration: `api.dashboard: true`.
pub open spec fn default_static() -> YamlV {
    YamlV::Mapping(
        seq![(ys("api"@), YamlV::Mapping(seq![(ys("dashboard"@), YamlV::Bool(true))]))],
    )
}

/// The static configuration after the first `n` `route_add` entries that name no
/// route, each written at its dotted key.
pub open spec fn static_fold(root: YamlV, ras: Seq<RouteAddV>, n: int) -> YamlV
    decreases n,
{
    if n <= 0 || n > ras.len() {
        root
    } else {
        let r = static_fold(root, ras, n - 1);
        if ras[n - 1].route_name is None {
            set_nested(r, ras[n - 1].key, ras[n - 1].value).0
        } else {
            r
        }
    }
}

/// The static configuration: `base` (or the default) with the router's
/// route-less `route_add` entries applied.
pub open spec fn static_config(router_service: ServiceBlockV, base: Option<YamlV>) -> YamlV {
    let root = match base {
        Some(b) => b,
        None => default_static(),
    };
    static_fold(root, router_service.route_add, router_service.route_add.len() as int)
}

/// Generator of Traefik configuration.
pub struct TraefikGenerator;

/// The model of an optional value.
pub open spec fn opt_model(o: Option<Yaml>) -> Option<YamlV> {
    match o {
        Some(y) => Some(y.model()),
        None => None,
    }
}

/// A middleware reference (see `middleware_ref`).
fn middleware_ref_exec(mw: &String) -> (r: Yaml)
    ensures
        r.model() == ys(middleware_ref(mw@)),
{
    Yaml::Str(string_of(&chars_of_string(mw)))
}

impl TraefikGenerator {
    /// Router name: `{service}-{name}` for a named serve, the service name for
    /// the root domain (`.`), otherwise the subdomain.
    pub fn router_name(service_name: &str, serve: &ServeConfig) -> (r: String)
        ensures
            r@ == router_name_of(service_name@, serve@),
    {
        match &serve.name {
            Some(n) => {
                let mut v = chars_of(service_name);
                append(&mut v, &lit("-"));
                append(&mut v, &chars_of_string(n));
                string_of(&v)
            },
            None => if string_eq_str(&serve.subdomain, ".") {
                service_name.to_owned()
            } else {
                serve.subdomain.clone()
            },
        }
    }

    /// The `Host` rule of a serve: `Host(`domain`)` for the root domain (`.`),
    /// else `Host(`subdomain.domain`)`.
    pub fn base_rule(serve: &ServeConfig, domain: &str) -> (r: String)
        ensures
            r@ == base_rule_of(serve@, domain@),
    {
        let mut v = lit("Host(`");
        if !string_eq_str(&serve.subdomain, ".") {
            append(&mut v, &chars_of_string(&serve.subdomain));
            append(&mut v, &lit("."));
        }
        append(&mut v, &chars_of(domain));
        append(&mut v, &lit("`)"));
        string_of(&v)
    }

    /// The entries of a router (see `router_entries`).
    fn generate_router(
        serve: &ServeConfig,
        base_rule: &str,
        defaults: &TraefikDefaults,
        svc_name: &str,
    ) -> (r: Vec<YamlEntry>)
        ensures
            entries_model(r@) == router_entries(serve@, base_rule@, defaults@, svc_name@),
    {
        let ghost target = router_entries(serve@, base_rule@, defaults@, svc_name@);
        let mut r: Vec<YamlEntry> = Vec::new();
        r.push(str_entry("rule", str_value(base_rule)));
        let ghost s1 = entries_model(r@);
        assert(s1 =~= seq![(ys("rule"@), ys(base_rule@))]);
        if defaults.entry_points.len() > 0 {
            let mut eps: Vec<Yaml> = Vec::new();
            let mut i: usize = 0;
            while i < defaults.entry_points.len()
                invariant
                    i <= defaults.entry_points.len(),
                    items_model(eps@) == defaults@.entry_points.take(i as int).map_values(
                        |e: Seq<char>| ys(e),
                    ),
                decreases defaults.entry_points.len() - i,
            {
                let ghost prev = items_model(eps@);
                let item = Yaml::Str(defaults.entry_points[i].clone());
                eps.push(item);
                assert(items_model(eps@) =~= prev.push(ys(defaults@.entry_points[i as int])));
                assert(defaults@.entry_points.take(i as int + 1).map_values(|e: Seq<char>| ys(e))
                    =~= defaults@.entry_points.take(i as int).map_values(|e: Seq<char>| ys(e)).push(
                    ys(defaults@.entry_points[i as int]),
                ));
                i = i + 1;
            }
            assert(defaults@.entry_points.take(i as int) =~= defaults@.entry_points);
            r.push(str_entry("entryPoints", sequence(eps)));
        }
        let ghost s2 = entries_model(r@);
        assert(s2 =~= seq![(ys("rule"@), ys(base_rule@))] + (if defaults@.entry_points.len() > 0 {
            seq![
                (
                    ys("entryPoints"@),
                    YamlV::Sequence(defaults@.entry_points.map_values(|e: Seq<char>| ys(e))),
                ),
            ]
        } else {
            seq![]
        }));
        r.push(str_entry("service", str_value(svc_name)));
        if serve.middlewares.len() > 0 {
            let mut mws: Vec<Yaml> = Vec::new();
            let mut i: usize = 0;
            while i < serve.middlewares.len()
                invariant
                    i <= serve.middlewares.len(),
                    items_model(mws@) == serve@.middlewares.take(i as int).map_values(
                        |m: Seq<char>| ys(middleware_ref(m)),
                    ),
                decreases serve.middlewares.len() - i,
            {
                let ghost prev = items_model(mws@);
                let item = middleware_ref_exec(&serve.middlewares[i]);
                mws.push(item);
                assert(items_model(mws@) =~= prev.push(ys(middleware_ref(serve@.middlewares[i as int]))));
                assert(serve@.middlewares.take(i as int + 1).map_values(
                    |m: Seq<char>| ys(middleware_ref(m)),
                ) =~= serve@.middlewares.take(i as int).map_values(
                    |m: Seq<char>| ys(middleware_ref(m)),
                ).push(ys(middleware_ref(serve@.middlewares[i as int]))));
                i = i + 1;
            }
            assert(serve@.middlewares.take(i as int) =~= serve@.middlewares);
            r.push(str_entry("middlewares", sequence(mws)));
        }
        match &defaults.cert_resolver {
            Some(res) => {
                let tls = vec![str_entry("certResolver", Yaml::Str(res.clone()))];
                assert(entries_model(tls@) =~= seq![(ys("certResolver"@), ys(res@))]);
                r.push(str_entry("tls", mapping(tls)));
            },
            None => {},
        }
        assert(entries_model(r@) =~= target);
        r
    }

    /// Applies a `route_add` to a router (see `apply_route_add_spec`).
    fn apply_route_add(router: &mut Vec<YamlEntry>, ra: &RouteAdd, base_rule: &str)
        ensures
            entries_model(final(router)@) == apply_route_add_spec(
                entries_model(old(router)@),
                ra@,
                base_rule@,
            ),
    {
        proof {
            reveal_strlit("@");
        }
        let value = if string_eq_str(&ra.key, "rule") {
            match &ra.value {
                Yaml::Str(s) => Yaml::Str(
                    string_of(&replace_all_exec(&chars_of_string(s), &lit("@"), &chars_of(base_rule))),
                ),
                other => yaml_copy(other),
            }
        } else {
            yaml_copy(&ra.value)
        };
        let mut taken: Vec<YamlEntry> = Vec::new();
        std::mem::swap(&mut taken, router);
        proof {
            lemma_map_model(taken);
        }
        let mut root = Yaml::Mapping(taken);
        let _ = set_nested_value(&mut root, ra.key.as_str(), value);
        match root {
            Yaml::Mapping(m) => {
                proof {
                    lemma_map_model(m);
                }
                *router = m;
            },
            _ => {
                assert(entries_model(router@) =~= Seq::<(YamlV, YamlV)>::empty());
            },
        }
    }

    /// The load-balancer service of a serve (see `lb_service`).
    fn generate_lb_service(service: &ServiceBlock, serve: &ServeConfig) -> (r: Yaml)
        ensures
            r.model() == lb_service(service.name@, serve.port),
    {
        let mut url = lit("http://");
        append(&mut url, &chars_of_string(&service.name));
        append(&mut url, &lit(":"));
        append(&mut url, &dec_exec(serve.port as u64));
        let ghost url_v = ys("http://"@ + service.name@ + ":"@ + dec(serve.port as nat));
        let server = vec![str_entry("url", Yaml::Str(string_of(&url)))];
        assert(entries_model(server@) =~= seq![(ys("url"@), url_v)]);
        let m1 = mapping(server);
        let servers = vec![m1];
        assert(items_model(servers@) =~= seq![YamlV::Mapping(seq![(ys("url"@), url_v)])]);
        let sq = sequence(servers);
        let lb = vec![str_entry("servers", sq)];
        assert(entries_model(lb@) =~= seq![(ys("servers"@), sq.model())]);
        let m2 = mapping(lb);
        let svc = vec![str_entry("loadBalancer", m2)];
        assert(entries_model(svc@) =~= seq![(ys("loadBalancer"@), m2.model())]);
        mapping(svc)
    }
}

/// The views of a list of blocks.
pub open spec fn blocks_view(s: Seq<ServiceBlock>) -> Seq<ServiceBlockV> {
    s.map_values(|b: ServiceBlock| b@)
}

impl TraefikGenerator {
    /// The router of one serve, with the `route_add` entries that name it applied.
    fn serve_router(
        service: &ServiceBlock,
        serve: &ServeConfig,
        rule: &String,
        defaults: &TraefikDefaults,
        svc_name: &String,
    ) -> (r: Vec<YamlEntry>)
        ensures
            entries_model(r@) == apply_route_adds(
                router_entries(serve@, rule@, defaults@, svc_name@),
                service@.route_add,
                service@.route_add.len() as int,
                match serve@.name {
                    Some(n) => n,
                    None => serve@.subdomain,
                },
                rule@,
            ),
    {
        let ghost key_v = match serve@.name {
            Some(n) => n,
            None => serve@.subdomain,
        };
        let key: &String = match &serve.name {
            Some(n) => n,
            None => &serve.subdomain,
        };
        assert(key@ == key_v);
        let mut router = Self::generate_router(serve, rule.as_str(), defaults, svc_name.as_str());
        let mut k: usize = 0;
        while k < service.route_add.len()
            invariant
                k <= service.route_add.len(),
                key@ == key_v,
                entries_model(router@) == apply_route_adds(
                    router_entries(serve@, rule@, defaults@, svc_name@),
                    service@.route_add,
                    k as int,
                    key_v,
                    rule@,
                ),
            decreases service.route_add.len() - k,
        {
            let ra = &service.route_add[k];
            assert(service@.route_add[k as int] == ra@);
            let hit = match &ra.route_name {
                Some(n) => *n == *key,
                None => false,
            };
            if hit {
                Self::apply_route_add(&mut router, ra, rule.as_str());
            }
            k = k + 1;
        }
        router
    }

    /// The dynamic configuration (see `dynamic_config`): a router for every serve
    /// (only the API serves of the router container), named by `router_name`,
    /// with `route_add` overrides applied, and a load-balancer service for every
    /// serve that is not the API.
    pub fn generate_dynamic(
        services: &[ServiceBlock],
        router_container: &str,
        domain: &str,
        defaults: &TraefikDefaults,
    ) -> (r: Yaml)
        ensures
            r.model() == dynamic_config(
                blocks_view(services@),
                router_container@,
                domain@,
                defaults@,
            ),
    {
        let ghost sv = blocks_view(services@);
        let mut routers: Vec<YamlEntry> = Vec::new();
        let mut svcs: Vec<YamlEntry> = Vec::new();
        let mut i: usize = 0;
        assert(entries_model(routers@) =~= Seq::<(YamlV, YamlV)>::empty());
        assert(entries_model(svcs@) =~= Seq::<(YamlV, YamlV)>::empty());
        while i < services.len()
            invariant
                i <= services.len(),
                sv == blocks_view(services@),
                (entries_model(routers@), entries_model(svcs@)) == services_fold(
                    sv,
                    i as int,
                    router_container@,
                    domain@,
                    defaults@,
                ),
            decreases services.len() - i,
        {
            let service = &services[i];
            assert(sv[i as int] == service@);
            let is_router = string_eq_str(&service.name, router_container);
            let ghost before = services_fold(sv, i as int, router_container@, domain@, defaults@);
            let mut j: usize = 0;
            while j < service.serve.len()
                invariant
                    j <= service.serve.len(),
                    sv[i as int] == service@,
                    is_router == (service@.name == router_container@),
                    (entries_model(routers@), entries_model(svcs@)) == serves_fold(
                        before,
                        service@,
                        j as int,
                        router_container@,
                        domain@,
                        defaults@,
                    ),
                decreases service.serve.len() - j,
            {
                let serve = &service.serve[j];
                assert(service@.serve[j as int] == serve@);
                if !(is_router && !serve.api_internal) {
                    let rn = Self::router_name(service.name.as_str(), serve);
                    let svc_name = if serve.api_internal {
                        "api@internal".to_owned()
                    } else {
                        let mut v = chars_of_string(&rn);
                        append(&mut v, &lit("-service"));
                        string_of(&v)
                    };
                    let rule = Self::base_rule(serve, domain);
                    let router = Self::serve_router(service, serve, &rule, defaults, &svc_name);
                    map_insert_exec(&mut routers, Yaml::Str(rn), mapping(router));
                    if !serve.api_internal {
                        map_insert_exec(
                            &mut svcs,
                            Yaml::Str(svc_name),
                            Self::generate_lb_service(service, serve),
                        );
                    }
                }
                j = j + 1;
            }
            i = i + 1;
        }
        let mut http: Vec<YamlEntry> = Vec::new();
        let ghost rm = entries_model(routers@);
        let ghost sm = entries_model(svcs@);
        if routers.len() > 0 {
            http.push(str_entry("routers", mapping(routers)));
        }
        if svcs.len() > 0 {
            http.push(str_entry("services", mapping(svcs)));
        }
        assert(entries_model(http@) =~= (if rm.len() > 0 {
            seq![(ys("routers"@), YamlV::Mapping(rm))]
        } else {
            seq![]
        }) + (if sm.len() > 0 {
            seq![(ys("services"@), YamlV::Mapping(sm))]
        } else {
            seq![]
        }));
        let hm = mapping(http);
        let root = vec![str_entry("http", hm)];
        assert(entries_model(root@) =~= seq![(ys("http"@), hm.model())]);
        mapping(root)
    }

    /// The static configuration (see `static_config`): `base`, or
    /// `api.dashboard: true` without one, with the router container's
    /// `route_add` entries that name no route written at their dotted keys.
    pub fn generate_static(router_service: &ServiceBlock, base: Option<Yaml>) -> (r: Yaml)
        ensures
            r.model() == static_config(router_service@, opt_model(base)),
    {
        let mut root = match base {
            Some(b) => b,
            None => {
                let api = vec![str_entry("dashboard", Yaml::Bool(true))];
                assert(entries_model(api@) =~= seq![(ys("dashboard"@), YamlV::Bool(true))]);
                let am = mapping(api);
                let config = vec![str_entry("api", am)];
                assert(entries_model(config@) =~= seq![(ys("api"@), am.model())]);
                mapping(config)
            },
        };
        let ghost root0 = root.model();
        let mut k: usize = 0;
        while k < router_service.route_add.len()
            invariant
                k <= router_service.route_add.len(),
                root.model() == static_fold(root0, router_service@.route_add, k as int),
            decreases router_service.route_add.len() - k,
        {
            let ra = &router_service.route_add[k];
            assert(router_service@.route_add[k as int] == ra@);
            if ra.route_name.is_none() {
                let _ = set_nested_value(&mut root, ra.key.as_str(), yaml_copy(&ra.value));
            }
            k = k + 1;
        }
        root
    }
}

/// The leading whitespace of a line (`line.len() - line.trim_start().len()` bytes).
pub open spec fn indent_of(line: Seq<char>) -> nat {
    utf8_size(line.subrange(0, skip_class(line, 0, CharClass::Whitespace)))
}

/// One line of `separate_http_entries`: the text so far, whether the block is
/// open, and whether its first entry is still to come.
pub open spec fn http_sep_step(
    st: (Seq<char>, bool, bool),
    line: Seq<char>,
    header: Seq<char>,
) -> (Seq<char>, bool, bool) {
    let (out, in_block, first) = st;
    let trimmed = trim_start_class(line, CharClass::Whitespace);
    let te = trim_end_class(line, CharClass::Whitespace);
    if te == trim_end_class(header, CharClass::Whitespace) || te == header {
        (out + line + "\n"@, true, true)
    } else if in_block && indent_of(line) <= 2 && trim(line).len() > 0 {
        (out + "\n"@ + line + "\n"@, false, first)
    } else if in_block && indent_of(line) == 4 && trimmed.len() > 0 && trimmed[0] != '-' {
        (
            if first {
                out
            } else {
                out + "\n"@
            } + line + "\n"@,
            true,
            false,
        )
    } else {
        (out + line + "\n"@, in_block, first)
    }
}

/// After the first `n` lines.
pub open spec fn http_sep_fold(ls: Seq<Seq<char>>, n: int, header: Seq<char>) -> (
    Seq<char>,
    bool,
    bool,
)
    decreases n,
{
    if n <= 0 || n > ls.len() {
        (seq![], false, true)
    } else {
        http_sep_step(http_sep_fold(ls, n - 1, header), ls[n - 1], header)
    }
}

/// The YAML text with a blank line between the entries of `http.<block>` (at
/// indent 4) and after the block; every line ends with a line feed.
pub open spec fn http_separated(yaml: Seq<char>, block: Seq<char>) -> Seq<char> {
    let ls = lines(yaml);
    http_sep_fold(ls, ls.len() as int, "  "@ + block + ":"@).0
}

/// Inserts blank lines between the entries of `http.<block_name>` (see
/// `http_separated`).
pub fn separate_http_entries(yaml: &str, block_name: &str) -> (r: String)
    ensures
        r@ == http_separated(yaml@, block_name@),
{
    let mut header = lit("  ");
    append(&mut header, &chars_of(block_name));
    append(&mut header, &lit(":"));
    let header_te = trim_end_class_exec(&header, CharClass::Whitespace);
    let ls = lines_exec(&chars_of(yaml));
    let ghost lv = views(ls@);
    let nl = lit("\n");
    let mut out: Vec<char> = Vec::new();
    let mut in_block = false;
    let mut first = true;
    let mut i: usize = 0;
    while i < ls.len()
        invariant
            i <= ls.len(),
            lv == views(ls@),
            nl@ == "\n"@,
            header_te@ == trim_end_class(header@, CharClass::Whitespace),
            (out@, in_block, first) == http_sep_fold(lv, i as int, header@),
        decreases ls.len() - i,
    {
        let line = &ls[i];
        assert(lv[i as int] == line@);
        let lead = skip_class_exec(line, 0, CharClass::Whitespace);
        proof {
            lemma_skip_class(line@, 0, CharClass::Whitespace);
        }
        let trimmed = slice_of(line, lead, line.len());
        let te = trim_end_class_exec(line, CharClass::Whitespace);
        let ind = utf8_size_upto(&slice_of(line, 0, lead), 4);
        let at_most_2 = match ind {
            Some(n) => n <= 2,
            None => false,
        };
        let is_4 = match ind {
            Some(n) => n == 4,
            None => false,
        };
        if eq_chars(&te, &header_te) || eq_chars(&te, &header) {
            in_block = true;
            first = true;
        } else if in_block && at_most_2 && trim_exec(line).len() > 0 {
            in_block = false;
            append(&mut out, &nl);
        } else if in_block && is_4 && trimmed.len() > 0 && trimmed[0] != '-' {
            if !first {
                append(&mut out, &nl);
            }
            first = false;
        }
        append(&mut out, line);
        append(&mut out, &nl);
        i = i + 1;
    }
    string_of(&out)
}

/// The dynamic configuration as YAML text (see `dynamic_config`), with blank
/// lines between routers and between services.
pub fn generate_traefik_dynamic(
    services: &[ServiceBlock],
    router_container: &str,
    domain: &str,
    defaults: &TraefikDefaults,
) -> (r: String)
    ensures
        r@ == http_separated(
            http_separated(
                yaml_render(
                    dynamic_config(blocks_view(services@), router_container@, domain@, defaults@),
                ),
                "routers"@,
            ),
            "services"@,
        ),
{
    let config = TraefikGenerator::generate_dynamic(services, router_container, domain, defaults);
    let yaml = render_yaml(&config);
    let yaml = separate_http_entries(yaml.as_str(), "routers");
    separate_http_entries(yaml.as_str(), "services")
}

/// The static configuration as YAML text (see `static_config`).
pub fn generate_traefik_static(router_service: &ServiceBlock, base: Option<Yaml>) -> (r: String)
    ensures
        r@ == yaml_render(static_config(router_service@, opt_model(base))),
{
    let config = TraefikGenerator::generate_static(router_service, base);
    render_yaml(&config)
}

} // verus!
