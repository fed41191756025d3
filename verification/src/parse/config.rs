//! `config.dyard`: paths, the router container, global variables and defaults.
use vstd::prelude::*;
use crate::ast::{
    ConfigFile, ConfigFileV, ConfigValue, ConfigValueV, Defaults, InputPaths, OutputPaths,
    StrMap, TraefikDefaults, str_insert, strs_view,
};
use crate::text::{
    CharClass, append, chars_of, eq_chars, find, is_ws, lines, lines_exec, lit, skip_class,
    split_char, split_char_exec, split_once, split_once_exec, starts_with, string_of, trim,
    trim_class, trim_end_class, trim_end_class_exec, trim_exec, trim_start_class,
    trim_start_class_exec, views, contains, contains_exec, ends_with, slice_of,
    lowercase, to_lowercase, skip_class_exec, starts_with_exec, ends_with_exec,
};

verus! {

/// `key: value` (or, without a colon, `key = value`), both sides trimmed.
pub open spec fn kv_split(line: Seq<char>) -> Option<(Seq<char>, Seq<char>)> {
    match split_once(line, ':') {
        Some((k, v)) => Some((trim(k), trim(v))),
        None => match split_once(line, '=') {
            Some((k, v)) => Some((trim(k), trim(v))),
            None => None,
        },
    }
}

/// `[a, b, c]` or `a, b, c` as a list of trimmed items.
pub open spec fn list_items(value: Seq<char>) -> Seq<Seq<char>> {
    split_char(
        trim_end_class(trim_start_class(value, CharClass::Exactly('[')), CharClass::Exactly(']')),
        ',',
    ).map_values(|x: Seq<char>| trim(x))
}

/// The configuration that an empty `config.dyard` gives.
pub open spec fn default_config() -> ConfigFileV {
    ConfigFileV {
        input_containers: "containers/"@,
        input_network: "network/"@,
        input_env: "env/"@,
        output_compose: "build/docker-compose.yml"@,
        output_traefik: "build/traefik"@,
        output_env: "build/env"@,
        router_container: "traefik"@,
        variables: seq![],
        entry_points: seq!["websecure"@],
        cert_resolver: Some("letsencrypt"@),
        tls_options: None,
        restart: "unless-stopped"@,
    }
}

/// Parser state between lines: the configuration so far, the current section
/// (lowercased header, empty at the root) and whether `- item` lines continue
/// the traefik entry-point list.
pub struct ConfigParse {
    pub cfg: ConfigFileV,
    pub section: Seq<char>,
    pub in_list: bool,
}

/// One line of `config.dyard` applied to the state.
pub open spec fn config_step(st: ConfigParse, raw: Seq<char>) -> ConfigParse {
    let t = trim(raw);
    if t.len() == 0 || t[0] == '#' {
        st
    } else if starts_with(t, "- "@) {
        if st.in_list && st.section == "traefik"@ {
            ConfigParse {
                cfg: ConfigFileV {
                    entry_points: st.cfg.entry_points.push(trim(t.subrange(2, t.len() as int))),
                    ..st.cfg
                },
                ..st
            }
        } else {
            st
        }
    } else {
        let st = ConfigParse { in_list: false, ..st };
        let unindented = skip_class(raw, 0, CharClass::Whitespace) == 0;
        if unindented && t[t.len() - 1] == ':' && !contains(t.subrange(0, t.len() - 1), ":"@) {
            ConfigParse { section: lowercase(t.subrange(0, t.len() - 1)), ..st }
        } else {
            match kv_split(t) {
                None => st,
                Some((k, v)) => {
                    let c = st.cfg;
                    if st.section == "input"@ {
                        if k == "containers"@ {
                            ConfigParse { cfg: ConfigFileV { input_containers: v, ..c }, ..st }
                        } else if k == "network"@ {
                            ConfigParse { cfg: ConfigFileV { input_network: v, ..c }, ..st }
                        } else if k == "env"@ {
                            ConfigParse { cfg: ConfigFileV { input_env: v, ..c }, ..st }
                        } else {
                            st
                        }
                    } else if st.section == "output"@ {
                        if k == "compose"@ {
                            ConfigParse { cfg: ConfigFileV { output_compose: v, ..c }, ..st }
                        } else if k == "traefik"@ {
                            ConfigParse { cfg: ConfigFileV { output_traefik: v, ..c }, ..st }
                        } else if k == "env"@ {
                            ConfigParse { cfg: ConfigFileV { output_env: v, ..c }, ..st }
                        } else {
                            st
                        }
                    } else if st.section == "traefik"@ {
                        if k == "entryPoints"@ || k == "entrypoints"@ {
                            if v.len() == 0 {
                                ConfigParse {
                                    cfg: ConfigFileV { entry_points: seq![], ..c },
                                    in_list: true,
                                    ..st
                                }
                            } else {
                                ConfigParse {
                                    cfg: ConfigFileV { entry_points: list_items(v), ..c },
                                    ..st
                                }
                            }
                        } else if k == "certResolver"@ || k == "cert_resolver"@ {
                            ConfigParse {
                                cfg: ConfigFileV {
                                    cert_resolver: if v.len() == 0 {
                                        None
                                    } else {
                                        Some(v)
                                    },
                                    ..c
                                },
                                ..st
                            }
                        } else if k == "tlsOptions"@ || k == "tls_options"@ {
                            ConfigParse { cfg: ConfigFileV { tls_options: Some(v), ..c }, ..st }
                        } else {
                            st
                        }
                    } else if st.section == "defaults"@ {
                        if k == "restart"@ {
                            ConfigParse { cfg: ConfigFileV { restart: v, ..c }, ..st }
                        } else {
                            st
                        }
                    } else if st.section.len() == 0 {
                        if contains(t, ":"@) || contains(t, "="@) {
                            let secret = t[0] == '*';
                            let key = trim_start_class(k, CharClass::Exactly('*'));
                            if key == "router_container"@ {
                                ConfigParse {
                                    cfg: ConfigFileV { router_container: v, ..c },
                                    ..st
                                }
                            } else {
                                let value = if secret {
                                    ConfigValueV::Secret(v)
                                } else {
                                    ConfigValueV::String(v)
                                };
                                ConfigParse {
                                    cfg: ConfigFileV {
                                        variables: str_insert(c.variables, key, value),
                                        ..c
                                    },
                                    ..st
                                }
                            }
                        } else {
                            st
                        }
                    } else {
                        st
                    }
                },
            }
        }
    }
}

/// The state after the lines `ls`, in order, from `st`.
pub open spec fn apply_lines(st: ConfigParse, ls: Seq<Seq<char>>) -> ConfigParse
    decreases ls.len(),
{
    if ls.len() == 0 {
        st
    } else {
        config_step(apply_lines(st, ls.drop_last()), ls.last())
    }
}

/// The line that opens a multi-line entry-point list.
pub open spec fn entry_points_line() -> Seq<char> {
    "  entryPoints:"@
}

/// A `- item` line of a multi-line list.
pub open spec fn list_line(x: Seq<char>) -> Seq<char> {
    "    - "@ + x
}

/// An item without surrounding whitespace.
pub open spec fn plain_item(x: Seq<char>) -> bool {
    x.len() > 0 && !is_ws(x[0]) && !is_ws(x[x.len() - 1])
}

/// In the traefik section, an `entryPoints:` line with no value starts the
/// list afresh: the entry points are emptied, whatever they were.
pub proof fn lemma_entry_points_reset(st: ConfigParse)
    requires
        st.section == "traefik"@,
    ensures
        config_step(st, entry_points_line()).cfg.entry_points == Seq::<Seq<char>>::empty(),
        config_step(st, entry_points_line()).in_list,
        config_step(st, entry_points_line()).section == "traefik"@,
{
    reveal_strlit("  entryPoints:");
    reveal_strlit("entryPoints");
    reveal_strlit("entryPoints:");
    reveal_strlit("entrypoints");
    reveal_strlit("- ");
    reveal_strlit(":");
    reveal_strlit("input");
    reveal_strlit("output");
    reveal_strlit("traefik");
    let raw = entry_points_line();
    crate::text::lemma_trim_at(raw, 2);
    let t = trim(raw);
    assert(t =~= "entryPoints:"@);
    crate::text::lemma_skip_class(raw, 1, CharClass::Whitespace);
    assert(skip_class(raw, 0, CharClass::Whitespace) == skip_class(raw, 1, CharClass::Whitespace));
    assert(!starts_with(t, "- "@)) by {
        if starts_with(t, "- "@) {
            assert(t.subrange(0, 2)[0] == t[0]);
        }
    }
    crate::text::lemma_find_from(t, seq![':'], 0);
    assert(t.subrange(11, 12) =~= seq![':']);
    assert(crate::text::matches_at(t, seq![':'], 11));
    let m = find(t, seq![':']).unwrap();
    assert(t.subrange(m, m + 1)[0] == t[m]);
    assert(m == 11);
    let k = t.subrange(0, 11);
    crate::text::lemma_trim_at(k, 0);
    assert(k.subrange(0, 11) =~= k);
    assert(k =~= "entryPoints"@);
    let v = t.subrange(12, 12);
    assert(trim(v) =~= Seq::<char>::empty());
    assert(kv_split(t) == Some(("entryPoints"@, Seq::<char>::empty())));
    assert("traefik"@ != "input"@) by {
        assert("traefik"@.len() != "input"@.len());
    }
    assert("traefik"@ != "output"@) by {
        assert("traefik"@[0] != "output"@[0]);
    }
}

/// In a traefik entry-point list, each `- item` line adds the item at the end.
pub proof fn lemma_entry_points_item(st: ConfigParse, x: Seq<char>)
    requires
        st.section == "traefik"@,
        st.in_list,
        plain_item(x),
    ensures
        config_step(st, list_line(x)).cfg.entry_points == st.cfg.entry_points.push(x),
        config_step(st, list_line(x)).in_list,
        config_step(st, list_line(x)).section == "traefik"@,
{
    reveal_strlit("    - ");
    reveal_strlit("- ");
    let raw = list_line(x);
    assert(raw[raw.len() - 1] == x[x.len() - 1]);
    assert(raw[4] == '-');
    crate::text::lemma_trim_at(raw, 4);
    let t = trim(raw);
    assert(t =~= "- "@ + x);
    assert(t.subrange(0, 2) =~= "- "@);
    assert(starts_with(t, "- "@));
    assert(t.subrange(2, t.len() as int) =~= x);
    crate::text::lemma_trim_at(x, 0);
    assert(x.subrange(0, x.len() as int) =~= x);
}

/// In the traefik section, `entryPoints:` followed by `- item` lines gives
/// exactly those items as entry points, in order.
pub proof fn lemma_entry_points_list(st: ConfigParse, items: Seq<Seq<char>>)
    requires
        st.section == "traefik"@,
        forall|i: int| 0 <= i < items.len() ==> plain_item(#[trigger] items[i]),
    ensures
        apply_lines(st, seq![entry_points_line()] + items.map_values(|x: Seq<char>| list_line(x))).cfg.entry_points
            == items,
        apply_lines(st, seq![entry_points_line()] + items.map_values(|x: Seq<char>| list_line(x))).in_list,
        apply_lines(st, seq![entry_points_line()] + items.map_values(|x: Seq<char>| list_line(x))).section
            == "traefik"@,
    decreases items.len(),
{
    let ls = seq![entry_points_line()] + items.map_values(|x: Seq<char>| list_line(x));
    if items.len() == 0 {
        assert(ls.drop_last() =~= Seq::<Seq<char>>::empty());
        lemma_entry_points_reset(st);
    } else {
        let front = items.drop_last();
        lemma_entry_points_list(st, front);
        assert(ls.drop_last() =~= seq![entry_points_line()] + front.map_values(|x: Seq<char>| list_line(x)));
        assert(ls.last() == list_line(items.last()));
        let prev = apply_lines(st, ls.drop_last());
        lemma_entry_points_item(prev, items.last());
        assert(front.push(items.last()) =~= items);
    }
}

/// The state after the first `n` lines.
pub open spec fn config_fold(ls: Seq<Seq<char>>, n: int) -> ConfigParse
    decreases n,
{
    if n <= 0 || n > ls.len() {
        ConfigParse { cfg: default_config(), section: seq![], in_list: false }
    } else {
        config_step(config_fold(ls, n - 1), ls[n - 1])
    }
}

/// What `parse_config_file` reads from a text.
pub open spec fn parse_config_spec(input: Seq<char>) -> ConfigFileV {
    config_fold(lines(input), lines(input).len() as int).cfg
}


/// Splits a `key: value` or `key = value` line into trimmed parts.
pub fn kv_split_exec(line: &Vec<char>) -> (r: Option<(Vec<char>, Vec<char>)>)
    ensures
        r matches Some((k, v)) ==> kv_split(line@) == Some((k@, v@)),
        r is None ==> kv_split(line@) is None,
{
    match split_once_exec(line, ':') {
        Some((k, v)) => Some((trim_exec(&k), trim_exec(&v))),
        None => match split_once_exec(line, '=') {
            Some((k, v)) => Some((trim_exec(&k), trim_exec(&v))),
            None => None,
        },
    }
}

/// Splits a `key: value` (or `key = value`) line into its trimmed key and value.
pub fn parse_kv_line(line: &str) -> (r: Result<(String, String), String>)
    ensures
        r matches Ok((k, v)) ==> kv_split(line@) == Some((k@, v@)),
        r matches Err(e) ==> kv_split(line@) is None && e@ == "Invalid config line: "@ + line@,
{
    let l = chars_of(line);
    match kv_split_exec(&l) {
        Some((k, v)) => Ok((string_of(&k), string_of(&v))),
        None => {
            let mut msg = lit("Invalid config line: ");
            append(&mut msg, &l);
            Err(string_of(&msg))
        },
    }
}

/// Trims each piece of a list.
pub(crate) fn trim_all(pieces: &Vec<Vec<char>>) -> (r: Vec<String>)
    ensures
        strs_view(r@) == views(pieces@).map_values(|x: Seq<char>| trim(x)),
{
    let mut r: Vec<String> = Vec::new();
    let mut i: usize = 0;
    while i < pieces.len()
        invariant
            i <= pieces.len(),
            strs_view(r@) == views(pieces@).take(i as int).map_values(|x: Seq<char>| trim(x)),
        decreases pieces.len() - i,
    {
        let t = trim_exec(&pieces[i]);
        let ghost prev = strs_view(r@);
        r.push(string_of(&t));
        assert(views(pieces@)[i as int] == pieces@[i as int]@);
        assert(strs_view(r@) =~= prev.push(t@));
        assert(views(pieces@).take(i as int + 1) =~= views(pieces@).take(i as int).push(
            views(pieces@)[i as int],
        ));
        i = i + 1;
        assert(strs_view(r@) =~= views(pieces@).take(i as int).map_values(
            |x: Seq<char>| trim(x),
        ));
    }
    assert(views(pieces@).take(pieces.len() as int) =~= views(pieces@));
    r
}

/// `[a, b]` or `a, b` as trimmed items.
pub fn parse_list(value: &str) -> (r: Vec<String>)
    ensures
        strs_view(r@) == list_items(value@),
{
    let v = chars_of(value);
    let a = trim_start_class_exec(&v, CharClass::Exactly('['));
    let b = trim_end_class_exec(&a, CharClass::Exactly(']'));
    let pieces = split_char_exec(&b, ',');
    trim_all(&pieces)
}

/// The parser's state (see `ConfigParse`).
struct ConfigBuilder {
    containers: String,
    network: String,
    env_in: String,
    compose: String,
    traefik: String,
    env_out: String,
    router_container: String,
    variables: StrMap<ConfigValue>,
    entry_points: Vec<String>,
    cert_resolver: Option<String>,
    tls_options: Option<String>,
    restart: String,
    section: Vec<char>,
    in_list: bool,
}

impl View for ConfigBuilder {
    type V = ConfigParse;

    closed spec fn view(&self) -> ConfigParse {
        ConfigParse {
            cfg: ConfigFileV {
                input_containers: self.containers@,
                input_network: self.network@,
                input_env: self.env_in@,
                output_compose: self.compose@,
                output_traefik: self.traefik@,
                output_env: self.env_out@,
                router_container: self.router_container@,
                variables: self.variables@,
                entry_points: strs_view(self.entry_points@),
                cert_resolver: crate::ast::opt_view(self.cert_resolver),
                tls_options: crate::ast::opt_view(self.tls_options),
                restart: self.restart@,
            },
            section: self.section@,
            in_list: self.in_list,
        }
    }
}

impl ConfigBuilder {
    fn new() -> (r: Self)
        ensures
            r@ == (ConfigParse { cfg: default_config(), section: seq![], in_list: false }),
    {
        let mut eps: Vec<String> = Vec::new();
        eps.push(String::from_str("websecure"));
        let r = ConfigBuilder {
            containers: String::from_str("containers/"),
            network: String::from_str("network/"),
            env_in: String::from_str("env/"),
            compose: String::from_str("build/docker-compose.yml"),
            traefik: String::from_str("build/traefik"),
            env_out: String::from_str("build/env"),
            router_container: String::from_str("traefik"),
            variables: StrMap::new(),
            entry_points: eps,
            cert_resolver: Some(String::from_str("letsencrypt")),
            tls_options: None,
            restart: String::from_str("unless-stopped"),
            section: Vec::new(),
            in_list: false,
        };
        assert(strs_view(r.entry_points@) =~= seq!["websecure"@]);
        assert(r@.section =~= Seq::<char>::empty());
        r
    }

    fn step(&mut self, raw: &Vec<char>)
        ensures
            final(self)@ == config_step(old(self)@, raw@),
    {
        let t = trim_exec(raw);
        if t.len() == 0 || t[0] == '#' {
            return;
        }
        proof {
            reveal_strlit("- ");
        }
        if starts_with_exec(&t, &lit("- ")) {
            if self.in_list && eq_chars(&self.section, &lit("traefik")) {
                let item = trim_exec(&slice_of(&t, 2, t.len()));
                let ghost before = self.entry_points@;
                self.entry_points.push(string_of(&item));
                assert(strs_view(self.entry_points@) =~= strs_view(before).push(item@));
            }
            return;
        }
        self.in_list = false;
        let unindented = skip_class_exec(raw, 0, CharClass::Whitespace) == 0;
        let head = slice_of(&t, 0, t.len() - 1);
        if unindented && t[t.len() - 1] == ':' && !contains_exec(&head, &lit(":")) {
            let lowered = to_lowercase(string_of(&head).as_str());
            self.section = chars_of(lowered.as_str());
            return;
        }
        let (k, v) = match kv_split_exec(&t) {
            None => {
                return;
            },
            Some(kv) => kv,
        };
        if eq_chars(&self.section, &lit("input")) {
            if eq_chars(&k, &lit("containers")) {
                self.containers = string_of(&v);
            } else if eq_chars(&k, &lit("network")) {
                self.network = string_of(&v);
            } else if eq_chars(&k, &lit("env")) {
                self.env_in = string_of(&v);
            }
        } else if eq_chars(&self.section, &lit("output")) {
            if eq_chars(&k, &lit("compose")) {
                self.compose = string_of(&v);
            } else if eq_chars(&k, &lit("traefik")) {
                self.traefik = string_of(&v);
            } else if eq_chars(&k, &lit("env")) {
                self.env_out = string_of(&v);
            }
        } else if eq_chars(&self.section, &lit("traefik")) {
            if eq_chars(&k, &lit("entryPoints")) || eq_chars(&k, &lit("entrypoints")) {
                if v.len() == 0 {
                    self.entry_points = Vec::new();
                    self.in_list = true;
                    assert(strs_view(self.entry_points@) =~= Seq::<Seq<char>>::empty());
                } else {
                    self.entry_points = parse_list(string_of(&v).as_str());
                }
            } else if eq_chars(&k, &lit("certResolver")) || eq_chars(&k, &lit("cert_resolver")) {
                self.cert_resolver = if v.len() == 0 {
                    None
                } else {
                    Some(string_of(&v))
                };
            } else if eq_chars(&k, &lit("tlsOptions")) || eq_chars(&k, &lit("tls_options")) {
                self.tls_options = Some(string_of(&v));
            }
        } else if eq_chars(&self.section, &lit("defaults")) {
            if eq_chars(&k, &lit("restart")) {
                self.restart = string_of(&v);
            }
        } else if self.section.len() == 0 {
            if contains_exec(&t, &lit(":")) || contains_exec(&t, &lit("=")) {
                let secret = t[0] == '*';
                let key = trim_start_class_exec(&k, CharClass::Exactly('*'));
                if eq_chars(&key, &lit("router_container")) {
                    self.router_container = string_of(&v);
                } else {
                    let value = if secret {
                        ConfigValue::Secret(string_of(&v))
                    } else {
                        ConfigValue::String(string_of(&v))
                    };
                    self.variables.insert(string_of(&key), value);
                }
            }
        }
    }

    fn finish(self) -> (r: ConfigFile)
        ensures
            r@ == self@.cfg,
    {
        ConfigFile {
            input: InputPaths {
                containers: self.containers,
                network: self.network,
                env: self.env_in,
            },
            output: OutputPaths { compose: self.compose, traefik: self.traefik, env: self.env_out },
            router_container: self.router_container,
            variables: self.variables,
            traefik_defaults: TraefikDefaults {
                entry_points: self.entry_points,
                cert_resolver: self.cert_resolver,
                tls_options: self.tls_options,
            },
            defaults: Defaults { restart: self.restart },
        }
    }
}

/// Parses `config.dyard`. Every line is either understood or ignored, so the result
/// is always `Ok`.
pub fn parse_config_file(input: &str) -> (r: Result<ConfigFile, String>)
    ensures
        r matches Ok(c) && c@ == parse_config_spec(input@),
{
    let text = chars_of(input);
    let ls = lines_exec(&text);
    let mut b = ConfigBuilder::new();
    let mut i: usize = 0;
    while i < ls.len()
        invariant
            i <= ls.len(),
            views(ls@) == lines(input@),
            b@ == config_fold(views(ls@), i as int),
        decreases ls.len() - i,
    {
        b.step(&ls[i]);
        i = i + 1;
    }
    Ok(b.finish())
}

} // verus!
