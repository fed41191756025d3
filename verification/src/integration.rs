//! Building a project: resolving env sections and `${...}` references, network
//! YAML processing, and the texts written to the output directory.
use vstd::prelude::*;
use vstd::string::StrSliceExecFns;
use crate::yaml::{
    Yaml, YamlEntry, YamlV, entries_model, items_model, lemma_map_model, lemma_seq_model,
    map_insert, map_insert_exec, mapping, parse_yaml, sequence, set_nested, set_nested_value,
    to_yaml_string, yaml_copy, yaml_from_str, yaml_to_string,
};
use crate::validate::{loc_exec, loc_of};
use crate::ast::{
    ServiceBlock, ServiceBlockV, Volume, VolumeV, StrEntry,
    ConfigValue, ConfigValueV, EnvFile, EnvFileV, EnvSection, EnvSource, EnvSourceV, EnvVariable,
    EnvVariableV, StrMap, opt_view, str_get, str_insert, string_eq_str,
};
use crate::text::{
    lex_leq,
    CharClass, lemma_skip_class, lines, lines_exec, skip_class, skip_class_exec, split_char,
    split_char_exec, trim_start_class, trim_start_class_exec, utf8_len, utf8_size, views,
    append, chars_of, chars_of_string, concat, contains, contains_exec, count_char,
    count_char_exec, ends_with, ends_with_exec, find, find_exec, find_from, find_from_exec,
    lemma_find_from, lemma_rfind_before, lit, matches_at, replace_all, replace_all_exec,
    rfind_char, rfind_char_exec, slice_of, starts_with, starts_with_exec, string_of, trim,
    trim_exec,
};

verus! {

/// `m` with the entries `es` inserted in order.
pub open spec fn str_insert_all(
    m: Seq<(Seq<char>, EnvVariableV)>,
    es: Seq<(Seq<char>, EnvVariableV)>,
) -> Seq<(Seq<char>, EnvVariableV)>
    decreases es.len(),
{
    if es.len() == 0 {
        m
    } else {
        let r = str_insert_all(m, es.drop_last());
        str_insert(r, es.last().0, es.last().1)
    }
}

/// The deepest `extends` level that is followed.
pub open spec fn max_depth() -> nat {
    10
}

/// The variables of a section with its `extends` chain resolved (at most
/// `max_depth` levels; `fs` are the loaded env files, which other-file
/// sources read): the parents' variables in order, then the section's own,
/// each replacing an earlier one of the same name. An own entry
/// `KEY as ALIAS` with no value copies the inherited `KEY` (value and
/// secrecy) to `ALIAS`, keeping `KEY`, or is skipped where nothing is
/// inherited under `KEY` (see `own_fold`). A name that is not a section gives
/// nothing.
pub open spec fn resolve_section(
    f: EnvFileV,
    name: Option<Seq<char>>,
    depth: nat,
    fs: Seq<(Seq<char>, EnvFileV)>,
) -> Seq<(Seq<char>, EnvVariableV)>
    decreases max_depth() + 1 - depth, 1int, 0int,
{
    if depth > max_depth() {
        seq![]
    } else {
        let sec = match name {
            Some(n) => str_get(f.sections, n),
            None => Some(f.root_section),
        };
        match sec {
            None => seq![],
            Some(s) => own_fold(
                parents_fold(f, s.extends, s.extends.len() as int, depth, fs),
                s.variables,
                s.variables.len() as int,
            ),
        }
    }
}

/// The variables one `extends` source gives, one level deeper: a section of
/// the same file (`section`, or the root section), or of another loaded file
/// (`section@file`, or its root section for `@file`); nothing for a file that
/// is not loaded.
pub open spec fn parent_vars(
    f: EnvFileV,
    e: EnvSourceV,
    depth: nat,
    fs: Seq<(Seq<char>, EnvFileV)>,
) -> Option<Seq<(Seq<char>, EnvVariableV)>>
    decreases max_depth() + 1 - depth, 0int, 0int,
{
    if depth > max_depth() {
        None
    } else {
        match e {
            EnvSourceV::File { file, section } => if file.len() == 0 {
                Some(resolve_section(f, section, depth + 1, fs))
            } else {
                match env_lookup(fs, file) {
                    Some(g) => Some(resolve_section(g, section, depth + 1, fs)),
                    None => None,
                }
            },
            _ => None,
        }
    }
}

/// The variables inherited from the first `n` `extends` sources.
pub open spec fn parents_fold(
    f: EnvFileV,
    ext: Seq<EnvSourceV>,
    n: int,
    depth: nat,
    fs: Seq<(Seq<char>, EnvFileV)>,
) -> Seq<(Seq<char>, EnvVariableV)>
    decreases max_depth() + 1 - depth, 0int, n,
{
    if n <= 0 || n > ext.len() || depth > max_depth() {
        seq![]
    } else {
        let m = parents_fold(f, ext, n - 1, depth, fs);
        match parent_vars(f, ext[n - 1], depth, fs) {
            Some(vs) => str_insert_all(m, vs),
            None => m,
        }
    }
}

/// `m` with each of `aliases` (the first `n`) set to a plain copy of a value.
pub open spec fn alias_inserts(
    m: Seq<(Seq<char>, EnvVariableV)>,
    aliases: Seq<Seq<char>>,
    n: int,
    value: Seq<char>,
    secret: bool,
) -> Seq<(Seq<char>, EnvVariableV)>
    decreases n,
{
    if n <= 0 || n > aliases.len() {
        m
    } else {
        str_insert(
            alias_inserts(m, aliases, n - 1, value, secret),
            aliases[n - 1],
            EnvVariableV { value, secret, aliases: seq![] },
        )
    }
}

/// The own variables of a section applied to the inherited ones (first `n`).
/// An entry `KEY as ALIAS, ...` with no value copies the value and secrecy of
/// `KEY` (as it stands at that point) to each alias, keeping `KEY`; where
/// nothing is there under `KEY` it changes nothing. Every other entry sets
/// its name.
pub open spec fn own_fold(
    m: Seq<(Seq<char>, EnvVariableV)>,
    vars: Seq<(Seq<char>, EnvVariableV)>,
    n: int,
) -> Seq<(Seq<char>, EnvVariableV)>
    decreases n,
{
    if n <= 0 || n > vars.len() {
        m
    } else {
        let r = own_fold(m, vars, n - 1);
        let (k, v) = vars[n - 1];
        if v.value.len() == 0 && v.aliases.len() > 0 {
            match str_get(r, k) {
                Some(p) => alias_inserts(r, v.aliases, v.aliases.len() as int, p.value, p.secret),
                None => r,
            }
        } else {
            str_insert(r, k, v)
        }
    }
}

/// The env file of a name: the name itself, or the name with `.env` added.
pub open spec fn env_lookup(fs: Seq<(Seq<char>, EnvFileV)>, file: Seq<char>) -> Option<EnvFileV> {
    match str_get(fs, file) {
        Some(f) => Some(f),
        None => if !ends_with(file, ".env"@) {
            str_get(fs, file + ".env"@)
        } else {
            None
        },
    }
}

/// Builds projects and their outputs.
pub struct ProjectBuilder;

/// Copies the entries of `from` into `m`, in order (see `str_insert_all`).
#[verifier::rlimit(40)]
fn insert_vars(m: &mut StrMap<EnvVariable>, from: &StrMap<EnvVariable>)
    ensures
        final(m)@ == str_insert_all(old(m)@, from@),
{
    let ghost m0 = m@;
    let ghost fv = from@;
    let mut i: usize = 0;
    while i < from.entries.len()
        invariant
            i <= from.entries.len(),
            fv == from@,
            m@ == str_insert_all(m0, fv.take(i as int)),
        decreases from.entries.len() - i,
    {
        assert(fv.take(i as int + 1).drop_last() =~= fv.take(i as int));
        let e = &from.entries[i];
        assert(fv.take(i as int + 1).last() == (e.key@, e.value@));
        m.insert(e.key.clone(), e.value.copy());
        i = i + 1;
    }
    assert(fv.take(from.entries.len() as int) =~= fv);
}

/// Sets each alias of `var` to a plain copy of `value` (see `alias_inserts`).
pub(crate) fn insert_aliases(m: &mut StrMap<EnvVariable>, var: &EnvVariable, value: &String, secret: bool)
    ensures
        final(m)@ == alias_inserts(old(m)@, var@.aliases, var@.aliases.len() as int, value@, secret),
{
    let ghost m0 = m@;
    let ghost al = var@.aliases;
    let mut i: usize = 0;
    while i < var.aliases.len()
        invariant
            i <= var.aliases.len(),
            al == var@.aliases,
            m@ == alias_inserts(m0, al, i as int, value@, secret),
        decreases var.aliases.len() - i,
    {
        let nv = EnvVariable { value: value.clone(), secret, aliases: Vec::new() };
        assert(nv@.aliases =~= Seq::<Seq<char>>::empty());
        assert(al[i as int] == var.aliases@[i as int]@);
        m.insert(var.aliases[i].clone(), nv);
        i = i + 1;
    }
}

impl ProjectBuilder {
    /// The variables of a section with its `extends` chain resolved, sources
    /// in other files read from `env_files` (see `resolve_section`); `None`
    /// names the root section.
    pub fn resolve_env_section(
        ef: &EnvFile,
        section_name: Option<&str>,
        depth: usize,
        env_files: &StrMap<EnvFile>,
    ) -> (r: StrMap<EnvVariable>)
        ensures
            r@ == resolve_section(
                ef@,
                match section_name {
                    Some(n) => Some(n@),
                    None => None,
                },
                depth as nat,
                env_files@,
            ),
        decreases max_depth() + 1 - depth, 1int,
    {
        if depth > 10 {
            return StrMap::new();
        }
        let section: Option<&EnvSection> = match section_name {
            Some(n) => ef.sections.get(n),
            None => Some(&ef.root_section),
        };
        let section = match section {
            Some(s) => s,
            None => {
                return StrMap::new();
            },
        };
        let ghost sv = section@;
        let mut merged = Self::inherited_vars(ef, section, depth, env_files);
        let mut j: usize = 0;
        while j < section.variables.entries.len()
            invariant
                j <= section.variables.entries.len(),
                sv == section@,
                merged@ == own_fold(
                    parents_fold(ef@, sv.extends, sv.extends.len() as int, depth as nat, env_files@),
                    sv.variables,
                    j as int,
                ),
            decreases section.variables.entries.len() - j,
        {
            let e = &section.variables.entries[j];
            assert(sv.variables[j as int] == (e.key@, e.value@));
            let v = &e.value;
            if v.value.as_str().unicode_len() == 0 && v.aliases.len() > 0 {
                let found: Option<(String, bool)> = match merged.get(e.key.as_str()) {
                    Some(p) => Some((p.value.clone(), p.secret)),
                    None => None,
                };
                match found {
                    Some((value, secret)) => {
                        insert_aliases(&mut merged, v, &value, secret);
                    },
                    None => {},
                }
            } else {
                merged.insert(e.key.clone(), v.copy());
            }
            j = j + 1;
        }
        merged
    }

    /// The variables a section inherits from its `extends` sources, each
    /// resolved one level deeper (see `parents_fold`).
    pub(crate) fn inherited_vars(
        ef: &EnvFile,
        section: &EnvSection,
        depth: usize,
        env_files: &StrMap<EnvFile>,
    ) -> (r: StrMap<EnvVariable>)
        requires
            depth <= 10,
        ensures
            r@ == parents_fold(
                ef@,
                section@.extends,
                section@.extends.len() as int,
                depth as nat,
                env_files@,
            ),
        decreases max_depth() + 1 - depth, 0int,
    {
        let ghost sv = section@;
        let mut merged: StrMap<EnvVariable> = StrMap::new();
        let mut i: usize = 0;
        while i < section.extends.len()
            invariant
                i <= section.extends.len(),
                depth <= 10,
                sv == section@,
                merged@ == parents_fold(ef@, sv.extends, i as int, depth as nat, env_files@),
            decreases section.extends.len() - i,
        {
            assert(sv.extends[i as int] == section.extends@[i as int]@);
            match &section.extends[i] {
                EnvSource::File { file, section: parent } => {
                    if file.as_str().unicode_len() == 0 {
                        let inherited = match parent {
                            Some(p) => Self::resolve_env_section(ef, Some(p.as_str()), depth + 1, env_files),
                            None => Self::resolve_env_section(ef, None, depth + 1, env_files),
                        };
                        assert(parent_vars(ef@, sv.extends[i as int], depth as nat, env_files@) == Some(
                            inherited@,
                        ));
                        insert_vars(&mut merged, &inherited);
                    } else {
                        match Self::env_file_lookup(env_files, file.as_str()) {
                            Some(g) => {
                                let inherited = match parent {
                                    Some(p) => Self::resolve_env_section(
                                        g,
                                        Some(p.as_str()),
                                        depth + 1,
                                        env_files,
                                    ),
                                    None => Self::resolve_env_section(g, None, depth + 1, env_files),
                                };
                                assert(parent_vars(ef@, sv.extends[i as int], depth as nat, env_files@)
                                    == Some(inherited@));
                                insert_vars(&mut merged, &inherited);
                            },
                            None => {
                                assert(parent_vars(ef@, sv.extends[i as int], depth as nat, env_files@) is None);
                            },
                        }
                    }
                },
                _ => {},
            }
            i = i + 1;
        }
        merged
    }

    /// The env file of a name: the name itself, or the name with `.env` added
    /// (see `env_lookup`).
    pub fn env_file_lookup<'a>(env_files: &'a StrMap<EnvFile>, file: &str) -> (r: Option<&'a EnvFile>)
        ensures
            r matches Some(f) ==> env_lookup(env_files@, file@) == Some(f@),
            r is None ==> env_lookup(env_files@, file@) is None,
    {
        match env_files.get(file) {
            Some(f) => Some(f),
            None => {
                let v = chars_of(file);
                if !ends_with_exec(&v, &lit(".env")) {
                    let mut w = v;
                    append(&mut w, &lit(".env"));
                    let name = string_of(&w);
                    env_files.get(name.as_str())
                } else {
                    None
                }
            },
        }
    }
}

/// The next `${...}` at or after `i`: the positions of `${` and of the first `}`
/// after it.
pub open spec fn ref_at(s: Seq<char>, i: int) -> Option<(int, int)> {
    match find_from(s, "${"@, i) {
        None => None,
        Some(st) => match find_from(s, "}"@, st) {
            None => None,
            Some(e) => Some((st, e)),
        },
    }
}

pub proof fn lemma_ref_at(s: Seq<char>, i: int)
    requires
        0 <= i,
    ensures
        ref_at(s, i) matches Some((st, e)) ==> i <= st && st + 2 <= e < s.len() && s.subrange(
            st,
            st + 2,
        ) == "${"@,
{
    reveal_strlit("${");
    reveal_strlit("}");
    lemma_find_from(s, "${"@, i);
    if let Some(st) = find_from(s, "${"@, i) {
        lemma_find_from(s, "}"@, st);
        if let Some(e) = find_from(s, "}"@, st) {
            let q = s.subrange(st, st + 2);
            assert(q[0] == s[st] && q[1] == s[st + 1]);
            let r = s.subrange(e, e + 1);
            assert(r[0] == s[e]);
            assert(e != st && e != st + 1);
        }
    }
}

/// The next `${...}` at or after `i` (see `ref_at`).
fn ref_at_exec(v: &Vec<char>, i: usize) -> (r: Option<(usize, usize)>)
    ensures
        r matches Some((st, e)) ==> ref_at(v@, i as int) == Some((st as int, e as int)) && i <= st
            && st + 2 <= e < v.len(),
        r is None ==> ref_at(v@, i as int) is None,
{
    proof {
        lemma_ref_at(v@, i as int);
    }
    match find_from_exec(v, &lit("${"), i) {
        None => None,
        Some(st) => match find_from_exec(v, &lit("}"), st) {
            None => None,
            Some(e) => Some((st, e)),
        },
    }
}

/// The messages for the `${...@...}` references of `s` from `i` on.
pub open spec fn unresolved_from(s: Seq<char>, i: int, loc: Seq<char>) -> Seq<Seq<char>>
    decreases s.len() - i,
{
    if i < 0 || i >= s.len() {
        seq![]
    } else {
        match ref_at(s, i) {
            None => seq![],
            Some((st, e)) => {
                proof {
                    lemma_ref_at(s, i);
                }
                let expr = s.subrange(st + 2, e);
                (if contains(expr, "@"@) {
                    seq![loc + ": unresolved variable '${"@ + expr + "}'"@]
                } else {
                    seq![]
                }) + unresolved_from(s, e + 1, loc)
            },
        }
    }
}

impl ProjectBuilder {
    /// Appends to `errors` a message for each `${...}` reference of `s` that
    /// still holds an `@` (see `unresolved_from`).
    pub fn check_unresolved(s: &str, location: &str, errors: &mut Vec<String>)
        ensures
            final(errors)@.map_values(|e: String| e@) == old(errors)@.map_values(|e: String| e@)
                + unresolved_from(s@, 0, location@),
    {
        proof {
            reveal_strlit("@");
        }
        let v = chars_of(s);
        let ghost e0 = errors@.map_values(|e: String| e@);
        let mut i: usize = 0;
        while i < v.len()
            invariant
                i <= v.len(),
                v@ == s@,
                errors@.map_values(|e: String| e@) + unresolved_from(s@, i as int, location@) == e0
                    + unresolved_from(s@, 0, location@),
            decreases v.len() - i,
        {
            match ref_at_exec(&v, i) {
                None => {
                    assert(unresolved_from(s@, i as int, location@) =~= Seq::<Seq<char>>::empty());
                    i = v.len();
                },
                Some((st, e)) => {
                    let expr = slice_of(&v, st + 2, e);
                    let ghost before = errors@.map_values(|e: String| e@);
                    if contains_exec(&expr, &lit("@")) {
                        let mut m = chars_of(location);
                        append(&mut m, &lit(": unresolved variable '${"));
                        append(&mut m, &expr);
                        append(&mut m, &lit("}'"));
                        errors.push(string_of(&m));
                        assert(errors@.map_values(|e: String| e@) =~= before.push(m@));
                    }
                    i = e + 1;
                },
            }
        }
    }
}

/// How `${...}` references are resolved.
#[derive(Clone, Copy, PartialEq, Eq, Structural, Debug)]
pub enum TemplateMode {
    /// Every `KEY@section@file` and `KEY@file` value, secret or not; every
    /// config variable.
    Full,
    /// As `Full`, but a secret becomes `${KEY}` (read from `.env` by Docker), and
    /// only non-secret config variables are substituted.
    Compose,
    /// Non-secret values only; non-secret config variables.
    NonSecret,
}

/// An optional section name: `None` for the empty name.
pub open spec fn section_opt(s: Seq<char>) -> Option<Seq<char>> {
    if s.len() == 0 {
        None
    } else {
        Some(s)
    }
}

/// `KEY@section@file` (at least two `@`, split at the last two): the key, the
/// section (`None` when empty) and the file, each trimmed.
pub open spec fn ref3(expr: Seq<char>) -> Option<(Seq<char>, Option<Seq<char>>, Seq<char>)> {
    match rfind_char(expr, '@') {
        None => None,
        Some(last) => match rfind_char(expr.subrange(0, last), '@') {
            None => None,
            Some(second) => Some(
                (
                    trim(expr.subrange(0, second)),
                    section_opt(trim(expr.subrange(second + 1, last))),
                    trim(expr.subrange(last + 1, expr.len() as int)),
                ),
            ),
        },
    }
}

/// `KEY@file` (split at the first `@`): the key and the file, trimmed.
pub open spec fn ref2(expr: Seq<char>) -> Option<(Seq<char>, Seq<char>)> {
    match find(expr, "@"@) {
        None => None,
        Some(at) => Some((trim(expr.subrange(0, at)), trim(expr.subrange(at + 1, expr.len() as int)))),
    }
}

/// The variable `key` of a section of an env file, with `extends` resolved.
pub open spec fn lookup_var(
    fs: Seq<(Seq<char>, EnvFileV)>,
    file: Seq<char>,
    section: Option<Seq<char>>,
    key: Seq<char>,
) -> Option<EnvVariableV> {
    match env_lookup(fs, file) {
        Some(f) => str_get(resolve_section(f, section, 0, fs), key),
        None => None,
    }
}

/// What a found variable gives in a mode: its value; in `Compose` a secret
/// gives `${key}`; in `NonSecret` a secret gives nothing.
pub open spec fn mode_value(v: EnvVariableV, key: Seq<char>, mode: TemplateMode) -> Option<Seq<char>> {
    match mode {
        TemplateMode::Full => Some(v.value),
        TemplateMode::Compose => if v.secret {
            Some("${"@ + key + "}"@)
        } else {
            Some(v.value)
        },
        TemplateMode::NonSecret => if v.secret {
            None
        } else {
            Some(v.value)
        },
    }
}

/// What replaces the reference `${expr}`, if anything: `KEY@section@file`
/// reads the section, `KEY@file` the file's root section (see `mode_value`).
pub open spec fn replacement(
    expr: Seq<char>,
    fs: Seq<(Seq<char>, EnvFileV)>,
    mode: TemplateMode,
) -> Option<Seq<char>> {
    if count_char(expr, '@') >= 2 {
        match ref3(expr) {
            None => None,
            Some((key, section, file)) => match lookup_var(fs, file, section, key) {
                None => None,
                Some(v) => mode_value(v, key, mode),
            },
        }
    } else if count_char(expr, '@') == 1 {
        match ref2(expr) {
            None => None,
            Some((key, file)) => match lookup_var(fs, file, None, key) {
                Some(v) => mode_value(v, key, mode),
                None => None,
            },
        }
    } else {
        None
    }
}

/// A value that is itself a plain reference `${...}`.
pub open spec fn is_ref(val: Seq<char>) -> bool {
    starts_with(val, "${"@) && ends_with(val, "}"@)
}

/// Where scanning goes on after a replacement: from the same place (the
/// replacement is scanned again), except that `Compose` skips a replacement
/// that is itself a reference.
pub open spec fn next_scan(mode: TemplateMode, i: int, start: int, val: Seq<char>) -> int {
    match mode {
        TemplateMode::Compose => start + if is_ref(val) {
            val.len() as int
        } else {
            0
        },
        _ => i,
    }
}

/// Resolving the references of `r` from `i` on, in at most `fuel` steps; `None`
/// where that is not enough.
pub open spec fn scan(
    r: Seq<char>,
    i: int,
    fs: Seq<(Seq<char>, EnvFileV)>,
    mode: TemplateMode,
    fuel: nat,
) -> Option<Seq<char>>
    decreases fuel,
{
    if fuel == 0 {
        None
    } else if i < 0 || i >= r.len() {
        Some(r)
    } else {
        match ref_at(r, i) {
            None => Some(r),
            Some((st, e)) => match replacement(r.subrange(st + 2, e), fs, mode) {
                Some(val) => scan(
                    r.subrange(0, st) + val + r.subrange(e + 1, r.len() as int),
                    next_scan(mode, i, st, val),
                    fs,
                    mode,
                    (fuel - 1) as nat,
                ),
                None => scan(r, e + 1, fs, mode, (fuel - 1) as nat),
            },
        }
    }
}

/// The references of `s` resolve in finitely many steps (a value that refers
/// to itself, directly or through others, never does).
pub open spec fn resolves(s: Seq<char>, fs: Seq<(Seq<char>, EnvFileV)>, mode: TemplateMode) -> bool {
    exists|fuel: nat| #[trigger] scan(s, 0, fs, mode, fuel) is Some
}

/// Enough steps for `s`.
pub open spec fn steps_needed(s: Seq<char>, fs: Seq<(Seq<char>, EnvFileV)>, mode: TemplateMode) -> nat {
    choose|fuel: nat| #[trigger] scan(s, 0, fs, mode, fuel) is Some
}

/// `s` with its references resolved.
pub open spec fn resolved(s: Seq<char>, fs: Seq<(Seq<char>, EnvFileV)>, mode: TemplateMode) -> Seq<
    char,
> {
    scan(s, 0, fs, mode, steps_needed(s, fs, mode)).unwrap()
}

/// More steps than enough give the same text.
pub proof fn lemma_scan_fuel(
    r: Seq<char>,
    i: int,
    fs: Seq<(Seq<char>, EnvFileV)>,
    mode: TemplateMode,
    f1: nat,
    f2: nat,
)
    requires
        scan(r, i, fs, mode, f1) is Some,
        f1 <= f2,
    ensures
        scan(r, i, fs, mode, f2) == scan(r, i, fs, mode, f1),
    decreases f1,
{
    if f1 > 0 && 0 <= i < r.len() {
        if let Some((st, e)) = ref_at(r, i) {
            match replacement(r.subrange(st + 2, e), fs, mode) {
                Some(val) => lemma_scan_fuel(
                    r.subrange(0, st) + val + r.subrange(e + 1, r.len() as int),
                    next_scan(mode, i, st, val),
                    fs,
                    mode,
                    (f1 - 1) as nat,
                    (f2 - 1) as nat,
                ),
                None => lemma_scan_fuel(r, e + 1, fs, mode, (f1 - 1) as nat, (f2 - 1) as nat),
            }
        }
    }
}

/// The config variables substituted for `${NAME}`, in order (the first `n`;
/// secret values only in `Full` mode).
pub open spec fn config_subst(
    r: Seq<char>,
    cv: Seq<(Seq<char>, ConfigValueV)>,
    n: int,
    mode: TemplateMode,
) -> Seq<char>
    decreases n,
{
    if n <= 0 || n > cv.len() {
        r
    } else {
        let prev = config_subst(r, cv, n - 1, mode);
        let (k, v) = cv[n - 1];
        match v {
            ConfigValueV::String(val) => replace_all(prev, "${"@ + k + "}"@, val),
            ConfigValueV::Secret(val) => if mode == TemplateMode::Full {
                replace_all(prev, "${"@ + k + "}"@, val)
            } else {
                prev
            },
        }
    }
}

/// A template fully resolved: references, then config variables.
pub open spec fn template_text(
    s: Seq<char>,
    fs: Seq<(Seq<char>, EnvFileV)>,
    cv: Seq<(Seq<char>, ConfigValueV)>,
    mode: TemplateMode,
) -> Seq<char> {
    config_subst(resolved(s, fs, mode), cv, cv.len() as int, mode)
}

/// The variable `key` of a section of an env file (see `lookup_var`), copied.
fn lookup_var_exec(
    env_files: &StrMap<EnvFile>,
    file: &Vec<char>,
    section: &Option<Vec<char>>,
    key: &Vec<char>,
) -> (r: Option<EnvVariable>)
    ensures
        r matches Some(v) ==> lookup_var(
            env_files@,
            file@,
            match section {
                Some(x) => Some(x@),
                None => None,
            },
            key@,
        ) == Some(v@),
        r is None ==> lookup_var(
            env_files@,
            file@,
            match section {
                Some(x) => Some(x@),
                None => None,
            },
            key@,
        ) is None,
{
    let fname = string_of(file);
    match ProjectBuilder::env_file_lookup(env_files, fname.as_str()) {
        None => None,
        Some(ef) => {
            let vars = match section {
                Some(x) => {
                    let sn = string_of(x);
                    ProjectBuilder::resolve_env_section(ef, Some(sn.as_str()), 0, env_files)
                },
                None => ProjectBuilder::resolve_env_section(ef, None, 0, env_files),
            };
            let k = string_of(key);
            match vars.get(k.as_str()) {
                Some(v) => Some(v.copy()),
                None => None,
            }
        },
    }
}

/// `KEY@section@file` split (see `ref3`).
fn ref3_exec(expr: &Vec<char>) -> (r: Option<(Vec<char>, Option<Vec<char>>, Vec<char>)>)
    ensures
        r matches Some((k, s, f)) ==> ref3(expr@) == Some(
            (
                k@,
                match s {
                    Some(x) => Some(x@),
                    None => None,
                },
                f@,
            ),
        ),
        r is None ==> ref3(expr@) is None,
{
    match rfind_char_exec(expr, '@') {
        None => None,
        Some(last) => {
            let head = slice_of(expr, 0, last);
            match rfind_char_exec(&head, '@') {
                None => None,
                Some(second) => {
                    let sec = trim_exec(&slice_of(expr, second + 1, last));
                    let key = trim_exec(&slice_of(expr, 0, second));
                    let file = trim_exec(&slice_of(expr, last + 1, expr.len()));
                    let so = if sec.len() == 0 {
                        None
                    } else {
                        Some(sec)
                    };
                    Some((key, so, file))
                },
            }
        },
    }
}

/// What replaces `${expr}` (see `replacement`).
fn replacement_exec(expr: &Vec<char>, env_files: &StrMap<EnvFile>, mode: TemplateMode) -> (r:
    Option<Vec<char>>)
    ensures
        r matches Some(v) ==> replacement(expr@, env_files@, mode) == Some(v@),
        r is None ==> replacement(expr@, env_files@, mode) is None,
{
    let n = count_char_exec(expr, '@');
    if n >= 2 {
        match ref3_exec(expr) {
            None => None,
            Some((key, section, file)) => match lookup_var_exec(env_files, &file, &section, &key) {
                None => None,
                Some(v) => mode_value_exec(&v, &key, mode),
            },
        }
    } else if n == 1 {
        proof {
            lemma_find_from(expr@, "@"@, 0);
            reveal_strlit("@");
        }
        match find_exec(expr, &lit("@")) {
            None => None,
            Some(at) => {
                let key = trim_exec(&slice_of(expr, 0, at));
                let file = trim_exec(&slice_of(expr, at + 1, expr.len()));
                match lookup_var_exec(env_files, &file, &None, &key) {
                    Some(v) => mode_value_exec(&v, &key, mode),
                    None => None,
                }
            },
        }
    } else {
        None
    }
}

/// What a found variable gives in a mode (see `mode_value`).
fn mode_value_exec(v: &EnvVariable, key: &Vec<char>, mode: TemplateMode) -> (r: Option<Vec<char>>)
    ensures
        r matches Some(x) ==> mode_value(v@, key@, mode) == Some(x@),
        r is None ==> mode_value(v@, key@, mode) is None,
{
    match mode {
        TemplateMode::Full => Some(chars_of_string(&v.value)),
        TemplateMode::Compose => if v.secret {
            let mut t = lit("${");
            append(&mut t, key);
            append(&mut t, &lit("}"));
            Some(t)
        } else {
            Some(chars_of_string(&v.value))
        },
        TemplateMode::NonSecret => if v.secret {
            None
        } else {
            Some(chars_of_string(&v.value))
        },
    }
}

/// One step of `scan`: `None` where scanning stops (the text is final),
/// otherwise the text and position to go on from.
fn scan_step(r: &Vec<char>, i: usize, env_files: &StrMap<EnvFile>, mode: TemplateMode) -> (out:
    Option<(Vec<char>, usize)>)
    requires
        i <= r.len(),
    ensures
        out is None ==> forall|fuel: nat|
            fuel >= 1 ==> #[trigger] scan(r@, i as int, env_files@, mode, fuel) == Some(r@),
        out matches Some((r2, i2)) ==> i2 <= r2.len() && forall|fuel: nat|
            fuel >= 1 ==> #[trigger] scan(r@, i as int, env_files@, mode, fuel) == scan(
                r2@,
                i2 as int,
                env_files@,
                mode,
                (fuel - 1) as nat,
            ),
{
    if i >= r.len() {
        return None;
    }
    match ref_at_exec(r, i) {
        None => None,
        Some((st, e)) => {
            let expr = slice_of(r, st + 2, e);
            match replacement_exec(&expr, env_files, mode) {
                Some(val) => {
                    let mut r2 = slice_of(r, 0, st);
                    append(&mut r2, &val);
                    append(&mut r2, &slice_of(r, e + 1, r.len()));
                    let ghost rr = r@.subrange(0, st as int) + val@ + r@.subrange(
                        e + 1,
                        r@.len() as int,
                    );
                    assert(r2@ =~= rr);
                    let n2 = r2.len();
                    assert(st + val.len() <= n2);
                    proof {
                        reveal_strlit("${");
                        reveal_strlit("}");
                    }
                    let i2 = match mode {
                        TemplateMode::Compose => {
                            if starts_with_exec(&val, &lit("${")) && ends_with_exec(&val, &lit("}")) {
                                st + val.len()
                            } else {
                                st
                            }
                        },
                        _ => i,
                    };
                    assert(i2 == next_scan(mode, i as int, st as int, val@));
                    assert forall|fuel: nat| fuel >= 1 implies #[trigger] scan(
                        r@,
                        i as int,
                        env_files@,
                        mode,
                        fuel,
                    ) == scan(r2@, i2 as int, env_files@, mode, (fuel - 1) as nat) by {}
                    Some((r2, i2))
                },
                None => {
                    let r2 = slice_of(r, 0, r.len());
                    assert(r2@ =~= r@);
                    assert forall|fuel: nat| fuel >= 1 implies #[trigger] scan(
                        r@,
                        i as int,
                        env_files@,
                        mode,
                        fuel,
                    ) == scan(r2@, e + 1, env_files@, mode, (fuel - 1) as nat) by {}
                    Some((r2, e + 1))
                },
            }
        },
    }
}

/// The config variables substituted (see `config_subst`).
fn config_subst_exec(r: Vec<char>, config_vars: &StrMap<ConfigValue>, mode: TemplateMode) -> (out:
    Vec<char>)
    ensures
        out@ == config_subst(r@, config_vars@, config_vars@.len() as int, mode),
{
    proof {
        reveal_strlit("${");
        reveal_strlit("}");
    }
    let ghost r0 = r@;
    let ghost cv = config_vars@;
    let mut r = r;
    let mut k: usize = 0;
    while k < config_vars.entries.len()
        invariant
            k <= config_vars.entries.len(),
            cv == config_vars@,
            r@ == config_subst(r0, cv, k as int, mode),
        decreases config_vars.entries.len() - k,
    {
        let e = &config_vars.entries[k];
        assert(cv[k as int] == (e.key@, e.value@));
        proof {
            reveal_strlit("${");
            reveal_strlit("}");
        }
        let mut ph = lit("${");
        append(&mut ph, &chars_of_string(&e.key));
        append(&mut ph, &lit("}"));
        assert(ph@ == "${"@ + e.key@ + "}"@);
        match &e.value {
            ConfigValue::String(val) => {
                r = replace_all_exec(&r, &ph, &chars_of_string(val));
            },
            ConfigValue::Secret(val) => {
                if mode == TemplateMode::Full {
                    r = replace_all_exec(&r, &ph, &chars_of_string(val));
                }
            },
        }
        k = k + 1;
    }
    r
}

/// Resolves the references of a template and then its config variables (see
/// `template_text`); the references must resolve (see `resolves`).
pub fn resolve_template(
    s: &str,
    env_files: &StrMap<EnvFile>,
    config_vars: &StrMap<ConfigValue>,
    mode: TemplateMode,
) -> (r: String)
    requires
        resolves(s@, env_files@, mode),
    ensures
        r@ == template_text(s@, env_files@, config_vars@, mode),
{
    let ghost fs = env_files@;
    let ghost f0 = steps_needed(s@, fs, mode);
    let mut r = chars_of(s);
    let mut i: usize = 0;
    let ghost mut fuel = f0;
    loop
        invariant
            i <= r.len(),
            fs == env_files@,
            scan(r@, i as int, fs, mode, fuel) == scan(s@, 0, fs, mode, f0),
            scan(s@, 0, fs, mode, f0) is Some,
            f0 == steps_needed(s@, fs, mode),
        decreases fuel,
    {
        match scan_step(&r, i, env_files, mode) {
            None => {
                assert(scan(r@, i as int, fs, mode, fuel) == Some(r@));
                assert(resolved(s@, fs, mode) == r@);
                return string_of(&config_subst_exec(r, config_vars, mode));
            },
            Some((r2, i2)) => {
                assert(scan(r@, i as int, fs, mode, fuel) == scan(
                    r2@,
                    i2 as int,
                    fs,
                    mode,
                    (fuel - 1) as nat,
                ));
                r = r2;
                i = i2;
                proof {
                    fuel = (fuel - 1) as nat;
                }
            },
        }
    }
}

/// Resolves a template as `resolve_template` does, giving up after `max_steps`
/// steps: `None` where the references do not resolve in that many.
pub fn resolve_template_bounded(
    s: &str,
    env_files: &StrMap<EnvFile>,
    config_vars: &StrMap<ConfigValue>,
    mode: TemplateMode,
    max_steps: u64,
) -> (r: Option<String>)
    ensures
        r matches Some(t) ==> resolves(s@, env_files@, mode) && t@ == template_text(
            s@,
            env_files@,
            config_vars@,
            mode,
        ),
        r is Some <==> scan(s@, 0, env_files@, mode, max_steps as nat) is Some,
{
    let ghost fs = env_files@;
    let mut r = chars_of(s);
    let mut i: usize = 0;
    let mut left: u64 = max_steps;
    while left > 0
        invariant
            i <= r.len(),
            fs == env_files@,
            scan(r@, i as int, fs, mode, left as nat) == scan(s@, 0, fs, mode, max_steps as nat),
        decreases left,
    {
        match scan_step(&r, i, env_files, mode) {
            None => {
                assert(scan(r@, i as int, fs, mode, left as nat) == Some(r@));
                proof {
                    let f = max_steps as nat;
                    assert(scan(s@, 0, fs, mode, f) is Some);
                    assert(resolves(s@, fs, mode));
                    let g = steps_needed(s@, fs, mode);
                    if f <= g {
                        lemma_scan_fuel(s@, 0, fs, mode, f, g);
                    } else {
                        lemma_scan_fuel(s@, 0, fs, mode, g, f);
                    }
                }
                return Some(string_of(&config_subst_exec(r, config_vars, mode)));
            },
            Some((r2, i2)) => {
                assert(scan(r@, i as int, fs, mode, left as nat) == scan(
                    r2@,
                    i2 as int,
                    fs,
                    mode,
                    (left - 1) as nat,
                ));
                r = r2;
                i = i2;
                left = left - 1;
            },
        }
    }
    None
}

impl ProjectBuilder {
    /// Expands `${KEY@section@file}` and `${KEY@file}` (root section)
    /// references, secret or not, then `${NAME}` config variables (see
    /// `template_text` in `Full` mode).
    pub fn resolve_template_string(
        s: &str,
        env_files: &StrMap<EnvFile>,
        config_vars: &StrMap<ConfigValue>,
    ) -> (r: String)
        requires
            resolves(s@, env_files@, TemplateMode::Full),
        ensures
            r@ == template_text(s@, env_files@, config_vars@, TemplateMode::Full),
    {
        resolve_template(s, env_files, config_vars, TemplateMode::Full)
    }

    /// As `resolve_template_string`, but a secret becomes `${KEY}` so that it
    /// is not written into the compose file, and only non-secret config
    /// variables are substituted (`Compose` mode).
    pub fn resolve_template_string_compose(
        s: &str,
        env_files: &StrMap<EnvFile>,
        config_vars: &StrMap<ConfigValue>,
    ) -> (r: String)
        requires
            resolves(s@, env_files@, TemplateMode::Compose),
        ensures
            r@ == template_text(s@, env_files@, config_vars@, TemplateMode::Compose),
    {
        resolve_template(s, env_files, config_vars, TemplateMode::Compose)
    }

    /// As `resolve_template_string`, but secrets are left unresolved and only
    /// non-secret config variables are substituted (`NonSecret` mode).
    pub fn resolve_template_string_nonsecret(
        s: &str,
        env_files: &StrMap<EnvFile>,
        config_vars: &StrMap<ConfigValue>,
    ) -> (r: String)
        requires
            resolves(s@, env_files@, TemplateMode::NonSecret),
        ensures
            r@ == template_text(s@, env_files@, config_vars@, TemplateMode::NonSecret),
    {
        resolve_template(s, env_files, config_vars, TemplateMode::NonSecret)
    }
}

/// The value of a variable reference `KEY@section@file`, `KEY@file` or
/// `KEY@` (a config variable); `None` for a secret or a missing variable.
pub open spec fn varref_value(
    inner: Seq<char>,
    fs: Seq<(Seq<char>, EnvFileV)>,
    cv: Seq<(Seq<char>, ConfigValueV)>,
) -> Option<Seq<char>> {
    if count_char(inner, '@') >= 2 {
        match ref3(inner) {
            None => None,
            Some((key, section, file)) => match lookup_var(fs, file, section, key) {
                Some(v) => if v.secret {
                    None
                } else {
                    Some(v.value)
                },
                None => None,
            },
        }
    } else {
        match ref2(inner) {
            None => None,
            Some((key, file)) => if file.len() == 0 {
                match str_get(cv, key) {
                    Some(ConfigValueV::String(x)) => Some(x),
                    _ => None,
                }
            } else {
                match lookup_var(fs, file, None, key) {
                    Some(v) => if v.secret {
                        None
                    } else {
                        Some(v.value)
                    },
                    None => None,
                }
            },
        }
    }
}

/// The strings and numbers of a YAML sequence, in order (other items dropped).
pub open spec fn scalar_items(items: Seq<YamlV>) -> Seq<Seq<char>>
    decreases items.len(),
{
    if items.len() == 0 {
        seq![]
    } else {
        scalar_items(items.drop_last()) + match items.last() {
            YamlV::Str(x) => seq![x],
            YamlV::Number(x) => seq![x],
            _ => seq![],
        }
    }
}

/// A list item without `-` markers: trimmed, leading `-`s removed, trimmed.
pub open spec fn list_item(x: Seq<char>) -> Seq<char> {
    trim(trim_start_class(trim(x), CharClass::Exactly('-')))
}

/// The non-empty list items of the given pieces.
pub open spec fn list_items(xs: Seq<Seq<char>>) -> Seq<Seq<char>>
    decreases xs.len(),
{
    if xs.len() == 0 {
        seq![]
    } else {
        let it = list_item(xs.last());
        list_items(xs.drop_last()) + if it.len() > 0 {
            seq![it]
        } else {
            seq![]
        }
    }
}

/// The pieces a list value is split into: at commas, else at line breaks,
/// else the whole value.
pub open spec fn list_pieces(v: Seq<char>) -> Seq<Seq<char>> {
    if contains(v, ","@) {
        split_char(v, ',')
    } else if contains(v, "\n"@) {
        split_char(v, '\n')
    } else {
        seq![v]
    }
}

/// The items of a list value: a YAML sequence's strings and numbers; else one
/// item per comma-separated piece (or per line, or the whole value), without
/// `- ` markers, empty ones dropped.
pub open spec fn split_list(val: Seq<char>) -> Seq<Seq<char>> {
    let v = trim(val);
    if v.len() == 0 {
        seq![]
    } else {
        match yaml_from_str(v) {
            Ok(YamlV::Sequence(items)) => scalar_items(items),
            _ => list_items(list_pieces(v)),
        }
    }
}

/// `n` spaces.
pub open spec fn spaces(n: nat) -> Seq<char> {
    Seq::new(n, |i: int| ' ')
}

/// The lines a line of a network file becomes: a line that is only a
/// `${...@...}` reference with a value becomes one `- item` line per list item,
/// indented as the line; any other line stays.
pub open spec fn splice_line(
    line: Seq<char>,
    fs: Seq<(Seq<char>, EnvFileV)>,
    cv: Seq<(Seq<char>, ConfigValueV)>,
) -> Seq<char> {
    let t = trim(line);
    let inner = t.subrange(2, t.len() - 1);
    let spliced = if starts_with(t, "${"@) && ends_with(t, "}"@) && contains(inner, "@"@) {
        varref_value(inner, fs, cv)
    } else {
        None
    };
    match spliced {
        Some(val) => {
            let pad = spaces(
                utf8_size(line.subrange(0, skip_class(line, 0, CharClass::Whitespace))),
            );
            splice_items(pad, split_list(val), split_list(val).len() as int)
        },
        None => line + "\n"@,
    }
}

/// `pad - item\n` for the first `n` items.
pub open spec fn splice_items(pad: Seq<char>, items: Seq<Seq<char>>, n: int) -> Seq<char>
    decreases n,
{
    if n <= 0 || n > items.len() {
        seq![]
    } else {
        splice_items(pad, items, n - 1) + pad + "- "@ + items[n - 1] + "\n"@
    }
}

/// The first `n` lines, each processed by `splice_line`.
pub open spec fn splice_lines(
    ls: Seq<Seq<char>>,
    n: int,
    fs: Seq<(Seq<char>, EnvFileV)>,
    cv: Seq<(Seq<char>, ConfigValueV)>,
) -> Seq<char>
    decreases n,
{
    if n <= 0 || n > ls.len() {
        seq![]
    } else {
        splice_lines(ls, n - 1, fs, cv) + splice_line(ls[n - 1], fs, cv)
    }
}

/// The strings and numbers of a list of values (see `scalar_items`).
fn scalar_items_exec(items: &Vec<Yaml>) -> (r: Vec<String>)
    ensures
        r@.map_values(|x: String| x@) == scalar_items(
            items@.map_values(|y: Yaml| y.model()),
        ),
{
    let ghost iv = items@.map_values(|y: Yaml| y.model());
    let mut r: Vec<String> = Vec::new();
    let mut k: usize = 0;
    while k < items.len()
        invariant
            k <= items.len(),
            iv == items@.map_values(|y: Yaml| y.model()),
            r@.map_values(|x: String| x@) == scalar_items(iv.take(k as int)),
        decreases items.len() - k,
    {
        assert(iv.take(k as int + 1).drop_last() =~= iv.take(k as int));
        assert(iv.take(k as int + 1).last() == items@[k as int].model());
        let ghost before = r@.map_values(|x: String| x@);
        match &items[k] {
            Yaml::Str(x) => {
                r.push(x.clone());
                assert(r@.map_values(|x: String| x@) =~= before + seq![x@]);
            },
            Yaml::Number(x) => {
                r.push(x.clone());
                assert(r@.map_values(|x: String| x@) =~= before + seq![x@]);
            },
            _ => {
                assert(r@.map_values(|x: String| x@) =~= before + Seq::<Seq<char>>::empty());
            },
        }
        k = k + 1;
    }
    assert(iv.take(items.len() as int) =~= iv);
    r
}

impl ProjectBuilder {
    /// The items of a list value (see `split_list`).
    pub fn split_list_value(val: &str) -> (r: Vec<String>)
        ensures
            r@.map_values(|x: String| x@) == split_list(val@),
    {
        let v = trim_exec(&chars_of(val));
        if v.len() == 0 {
            let r: Vec<String> = Vec::new();
            assert(r@.map_values(|x: String| x@) =~= Seq::<Seq<char>>::empty());
            return r;
        }
        let vs = string_of(&v);
        match parse_yaml(vs.as_str()) {
            Ok(Yaml::Sequence(items)) => {
                proof {
                    crate::yaml::lemma_seq_model(items);
                    assert(crate::yaml::items_model(items@) =~= items@.map_values(|y: Yaml| y.model()));
                }
                return scalar_items_exec(&items);
            },
            _ => {},
        }
        let pieces = if contains_exec(&v, &lit(",")) {
            split_char_exec(&v, ',')
        } else if contains_exec(&v, &lit("\n")) {
            split_char_exec(&v, '\n')
        } else {
            vec![slice_of(&v, 0, v.len())]
        };
        assert(v@.subrange(0, v@.len() as int) =~= v@);
        let ghost pv = views(pieces@);
        assert(pv == list_pieces(v@));
        let mut r: Vec<String> = Vec::new();
        let mut k: usize = 0;
        while k < pieces.len()
            invariant
                k <= pieces.len(),
                pv == views(pieces@),
                r@.map_values(|x: String| x@) == list_items(pv.take(k as int)),
            decreases pieces.len() - k,
        {
            assert(pv.take(k as int + 1).drop_last() =~= pv.take(k as int));
            assert(pv.take(k as int + 1).last() == pieces@[k as int]@);
            let it = trim_exec(&trim_start_class_exec(&trim_exec(&pieces[k]), CharClass::Exactly('-')));
            let ghost before = r@.map_values(|x: String| x@);
            if it.len() > 0 {
                r.push(string_of(&it));
                assert(r@.map_values(|x: String| x@) =~= before + seq![it@]);
            } else {
                assert(r@.map_values(|x: String| x@) =~= before + Seq::<Seq<char>>::empty());
            }
            k = k + 1;
        }
        assert(pv.take(pieces.len() as int) =~= pv);
        r
    }

    /// The value of a variable reference (see `varref_value`).
    pub fn resolve_varref_value(
        inner: &str,
        env_files: &StrMap<EnvFile>,
        config_vars: &StrMap<ConfigValue>,
    ) -> (r: Option<String>)
        ensures
            r matches Some(x) ==> varref_value(inner@, env_files@, config_vars@) == Some(x@),
            r is None ==> varref_value(inner@, env_files@, config_vars@) is None,
    {
        let v = chars_of(inner);
        if count_char_exec(&v, '@') >= 2 {
            match ref3_exec(&v) {
                None => None,
                Some((key, section, file)) => match lookup_var_exec(env_files, &file, &section, &key) {
                    Some(var) => if var.secret {
                        None
                    } else {
                        Some(var.value)
                    },
                    None => None,
                },
            }
        } else {
            proof {
                lemma_find_from(v@, "@"@, 0);
                reveal_strlit("@");
            }
            match find_exec(&v, &lit("@")) {
                None => None,
                Some(at) => {
                    let key = trim_exec(&slice_of(&v, 0, at));
                    let file = trim_exec(&slice_of(&v, at + 1, v.len()));
                    if file.len() == 0 {
                        let k = string_of(&key);
                        match config_vars.get(k.as_str()) {
                            Some(ConfigValue::String(x)) => Some(x.clone()),
                            _ => None,
                        }
                    } else {
                        match lookup_var_exec(env_files, &file, &None, &key) {
                            Some(var) => if var.secret {
                                None
                            } else {
                                Some(var.value)
                            },
                            None => None,
                        }
                    }
                },
            }
        }
    }
}

/// One space per UTF-8 byte of the leading whitespace of a line.
fn indent_pad(line: &Vec<char>) -> (r: Vec<char>)
    ensures
        r@ == spaces(utf8_size(line@.subrange(0, skip_class(line@, 0, CharClass::Whitespace)))),
{
    let lead = skip_class_exec(line, 0, CharClass::Whitespace);
    proof {
        lemma_skip_class(line@, 0, CharClass::Whitespace);
    }
    let prefix = slice_of(line, 0, lead);
    let mut r: Vec<char> = Vec::new();
    let mut k: usize = 0;
    assert(r@ =~= spaces(utf8_size(prefix@.take(0))));
    while k < prefix.len()
        invariant
            k <= prefix.len(),
            r@ == spaces(utf8_size(prefix@.take(k as int))),
        decreases prefix.len() - k,
    {
        assert(prefix@.take(k as int + 1).drop_last() =~= prefix@.take(k as int));
        let u = prefix[k] as u32;
        let n: usize = if u < 0x80 {
            1
        } else if u < 0x800 {
            2
        } else if u < 0x10000 {
            3
        } else {
            4
        };
        assert(n == utf8_len(prefix@[k as int]));
        let mut j: usize = 0;
        let ghost base = r@;
        while j < n
            invariant
                j <= n,
                r@ == base + spaces(j as nat),
            decreases n - j,
        {
            r.push(' ');
            assert(r@ =~= base + spaces(j as nat + 1));
            j = j + 1;
        }
        assert(r@ =~= spaces(utf8_size(prefix@.take(k as int + 1))));
        k = k + 1;
    }
    assert(prefix@.take(prefix.len() as int) =~= prefix@);
    r
}

impl ProjectBuilder {
    /// Replaces each line that is only a `${...@...}` reference with a value by
    /// one `- item` line per list item of the value, indented as the line (see
    /// `splice_lines`); every line ends with a line feed.
    pub fn splice_list_varrefs(
        text: &str,
        env_files: &StrMap<EnvFile>,
        config_vars: &StrMap<ConfigValue>,
    ) -> (r: String)
        ensures
            r@ == splice_lines(lines(text@), lines(text@).len() as int, env_files@, config_vars@),
    {
        proof {
            reveal_strlit("${");
            reveal_strlit("}");
            reveal_strlit("@");
        }
        let ls = lines_exec(&chars_of(text));
        let ghost lv = views(ls@);
        let mut out: Vec<char> = Vec::new();
        let mut i: usize = 0;
        while i < ls.len()
            invariant
                i <= ls.len(),
                lv == views(ls@),
                lv == lines(text@),
                out@ == splice_lines(lv, i as int, env_files@, config_vars@),
            decreases ls.len() - i,
        {
            proof {
                reveal_strlit("${");
                reveal_strlit("}");
                reveal_strlit("@");
            }
            let line = &ls[i];
            assert(lv[i as int] == line@);
            let t = trim_exec(line);
            let mut spliced: Option<String> = None;
            if starts_with_exec(&t, &lit("${")) && ends_with_exec(&t, &lit("}")) {
                assert(t@.len() >= 3) by {
                    assert(t@.subrange(0, 2)[1] == '{');
                    assert(t@.subrange(t@.len() - 1, t@.len() as int)[0] == '}');
                }
                let inner = slice_of(&t, 2, t.len() - 1);
                if contains_exec(&inner, &lit("@")) {
                    let inner_s = string_of(&inner);
                    spliced = Self::resolve_varref_value(inner_s.as_str(), env_files, config_vars);
                }
            }
            let ghost expect = splice_line(line@, env_files@, config_vars@);
            match spliced {
                Some(val) => {
                    let pad = indent_pad(line);
                    let items = Self::split_list_value(val.as_str());
                    let ghost iv = items@.map_values(|x: String| x@);
                    let ghost o0 = out@;
                    let mut k: usize = 0;
                    while k < items.len()
                        invariant
                            k <= items.len(),
                            iv == items@.map_values(|x: String| x@),
                            out@ == o0 + splice_items(pad@, iv, k as int),
                        decreases items.len() - k,
                    {
                        append(&mut out, &pad);
                        append(&mut out, &lit("- "));
                        append(&mut out, &chars_of_string(&items[k]));
                        append(&mut out, &lit("\n"));
                        assert(out@ =~= o0 + splice_items(pad@, iv, k as int + 1));
                        k = k + 1;
                    }
                    assert(out@ == o0 + expect);
                },
                None => {
                    let ghost o0 = out@;
                    append(&mut out, line);
                    append(&mut out, &lit("\n"));
                    assert(out@ == o0 + expect);
                },
            }
            i = i + 1;
        }
        string_of(&out)
    }
}

/// A value with each mapping key `a.b.c` (a string with a dot) turned into
/// nested mappings, at every depth (tagged values are left as they are).
pub open spec fn expand(v: YamlV) -> YamlV
    decreases v, 0int,
{
    match v {
        YamlV::Mapping(m) => YamlV::Mapping(expand_entries(m, m.len() as int)),
        YamlV::Sequence(s) => YamlV::Sequence(expand_items(s, s.len() as int)),
        _ => v,
    }
}

/// The first `n` items, expanded.
pub open spec fn expand_items(s: Seq<YamlV>, n: int) -> Seq<YamlV>
    decreases s, n,
{
    if n <= 0 || n > s.len() {
        seq![]
    } else {
        expand_items(s, n - 1).push(expand(s[n - 1]))
    }
}

/// The mapping built from the first `n` entries: each value expanded; a dotted
/// string key written at its path (`set_nested`), any other key inserted.
pub open spec fn expand_entries(m: Seq<(YamlV, YamlV)>, n: int) -> Seq<(YamlV, YamlV)>
    decreases m, n,
{
    if n <= 0 || n > m.len() {
        seq![]
    } else {
        let acc = expand_entries(m, n - 1);
        let v = expand(m[n - 1].1);
        match m[n - 1].0 {
            YamlV::Str(k) => if contains(k, "."@) {
                match set_nested(YamlV::Mapping(acc), k, v).0 {
                    YamlV::Mapping(r) => r,
                    _ => seq![],
                }
            } else {
                map_insert(acc, m[n - 1].0, v)
            },
            key => map_insert(acc, key, v),
        }
    }
}

/// The value with dotted keys expanded (see `expand`).
#[verifier::loop_isolation(false)]
fn expand_ref(a: &Yaml) -> (r: Yaml)
    ensures
        r.model() == expand(a.model()),
    decreases a,
{
    proof {
        reveal_strlit(".");
    }
    match a {
        Yaml::Mapping(x) => {
            proof {
                lemma_map_model(*x);
            }
            let ghost m = entries_model(x@);
            let mut acc: Vec<YamlEntry> = Vec::new();
            let mut i: usize = 0;
            assert(entries_model(acc@) =~= expand_entries(m, 0));
            while i < x.len()
                invariant
                    i <= x.len(),
                    m == entries_model(x@),
                    entries_model(acc@) == expand_entries(m, i as int),
                decreases x.len() - i,
            {
                assert(decreases_to!(*a => *x));
                assert(decreases_to!(*x => x@));
                assert(decreases_to!(x@ => x@[i as int]));
                let v = expand_ref(&x[i].value);
                let dotted = match &x[i].key {
                    Yaml::Str(k) => contains_exec(&chars_of_string(k), &lit(".")),
                    _ => false,
                };
                if dotted {
                    let k = match &x[i].key {
                        Yaml::Str(k) => k.clone(),
                        _ => String::new(),
                    };
                    proof {
                        lemma_map_model(acc);
                    }
                    let mut root = Yaml::Mapping(acc);
                    let _ = set_nested_value(&mut root, k.as_str(), v);
                    acc = match root {
                        Yaml::Mapping(mm) => {
                            proof {
                                lemma_map_model(mm);
                            }
                            mm
                        },
                        _ => {
                            let e: Vec<YamlEntry> = Vec::new();
                            assert(entries_model(e@) =~= Seq::<(YamlV, YamlV)>::empty());
                            e
                        },
                    };
                } else {
                    map_insert_exec(&mut acc, yaml_copy(&x[i].key), v);
                }
                i = i + 1;
            }
            mapping(acc)
        },
        Yaml::Sequence(x) => {
            proof {
                lemma_seq_model(*x);
            }
            let ghost sv = items_model(x@);
            let mut out: Vec<Yaml> = Vec::new();
            let mut i: usize = 0;
            assert(items_model(out@) =~= expand_items(sv, 0));
            while i < x.len()
                invariant
                    i <= x.len(),
                    sv == items_model(x@),
                    items_model(out@) == expand_items(sv, i as int),
                decreases x.len() - i,
            {
                assert(decreases_to!(*a => *x));
                assert(decreases_to!(*x => x@));
                assert(decreases_to!(x@ => x@[i as int]));
                let ghost before = items_model(out@);
                let y = expand_ref(&x[i]);
                out.push(y);
                assert(items_model(out@) =~= before.push(y.model()));
                i = i + 1;
            }
            sequence(out)
        },
        _ => yaml_copy(a),
    }
}

/// The placeholder of the `n`th Go template.
pub open spec fn placeholder(n: nat) -> Seq<char> {
    "__GOTEMPL"@ + crate::text::dec(n) + "__"@
}

/// The text from `p` on with each `{{ ... }}` (up to the first `}}` after it)
/// replaced by the placeholder of its number (counting from `n`), and the
/// templates taken out, in order.
pub open spec fn extract_from(t: Seq<char>, p: int, n: nat) -> (Seq<char>, Seq<Seq<char>>)
    decreases t.len() - p,
{
    if p < 0 || p > t.len() {
        (seq![], seq![])
    } else {
        match find_from(t, "{{"@, p) {
            None => (t.subrange(p, t.len() as int), seq![]),
            Some(st) => match find_from(t, "}}"@, st) {
                None => (t.subrange(p, t.len() as int), seq![]),
                Some(e) => {
                    proof {
                        lemma_find_from(t, "{{"@, p);
                        lemma_find_from(t, "}}"@, st);
                        reveal_strlit("}}");
                    }
                    let (o, ts) = extract_from(t, e + 2, n + 1);
                    (t.subrange(p, st) + placeholder(n) + o, seq![t.subrange(st, e + 2)] + ts)
                },
            },
        }
    }
}

/// The text with each placeholder of the first `n` templates replaced by its template.
pub open spec fn restore_fold(text: Seq<char>, ts: Seq<Seq<char>>, n: int) -> Seq<char>
    decreases n,
{
    if n <= 0 || n > ts.len() {
        text
    } else {
        replace_all(restore_fold(text, ts, n - 1), placeholder((n - 1) as nat), ts[n - 1])
    }
}

/// The placeholder of the `n`th Go template.
fn placeholder_exec(n: usize) -> (r: Vec<char>)
    ensures
        r@ == placeholder(n as nat),
{
    let mut t = lit("__GOTEMPL");
    append(&mut t, &crate::text::dec_exec(n as u64));
    append(&mut t, &lit("__"));
    t
}

impl ProjectBuilder {
    /// Replaces each `{{ ... }}` Go template with the placeholder
    /// `__GOTEMPL<n>__` so that the text reads as plain YAML; gives the text and
    /// the templates (see `extract_from`).
    pub fn extract_go_templates(text: &str) -> (r: (String, Vec<String>))
        ensures
            (r.0@, r.1@.map_values(|x: String| x@)) == extract_from(text@, 0, 0),
    {
        proof {
            reveal_strlit("{{");
            reveal_strlit("}}");
        }
        let t = chars_of(text);
        let ghost tv = t@;
        let mut out: Vec<char> = Vec::new();
        let mut templates: Vec<String> = Vec::new();
        let mut p: usize = 0;
        loop
            invariant
                p <= t.len(),
                tv == t@,
                tv == text@,
                templates.len() <= p,
                ({
                    let (o, ts) = extract_from(tv, p as int, templates.len() as nat);
                    (out@ + o, templates@.map_values(|x: String| x@) + ts) == extract_from(tv, 0, 0)
                }),
            decreases t.len() - p,
        {
            proof {
                reveal_strlit("{{");
                reveal_strlit("}}");
                lemma_find_from(tv, "{{"@, p as int);
            }
            let ghost o0 = out@;
            let ghost t0 = templates@.map_values(|x: String| x@);
            match find_from_exec(&t, &lit("{{"), p) {
                None => {
                    assert(extract_from(tv, p as int, templates.len() as nat) == (
                        tv.subrange(p as int, tv.len() as int),
                        Seq::<Seq<char>>::empty(),
                    ));
                    append(&mut out, &slice_of(&t, p, t.len()));
                    let r = (string_of(&out), templates);
                    assert(r.1@.map_values(|x: String| x@) =~= t0 + Seq::<Seq<char>>::empty());
                    return r;
                },
                Some(st) => {
                    proof {
                        lemma_find_from(tv, "}}"@, st as int);
                    }
                    match find_from_exec(&t, &lit("}}"), st) {
                        None => {
                            assert(extract_from(tv, p as int, templates.len() as nat) == (
                                tv.subrange(p as int, tv.len() as int),
                                Seq::<Seq<char>>::empty(),
                            ));
                            append(&mut out, &slice_of(&t, p, t.len()));
                            let r = (string_of(&out), templates);
                            assert(r.1@.map_values(|x: String| x@) =~= t0 + Seq::<Seq<char>>::empty());
                            return r;
                        },
                        Some(e) => {
                            let n = templates.len();
                            let tl = t.len();
                            assert(e + 2 <= tl);
                            append(&mut out, &slice_of(&t, p, st));
                            append(&mut out, &placeholder_exec(n));
                            let tm = slice_of(&t, st, e + 2);
                            templates.push(string_of(&tm));
                            let ghost (o, ts) = extract_from(tv, e + 2, (n + 1) as nat);
                            assert(templates@.map_values(|x: String| x@) =~= t0.push(tm@));
                            assert(out@ + o =~= o0 + (tv.subrange(p as int, st as int) + placeholder(n as nat) + o));
                            assert(templates@.map_values(|x: String| x@) + ts =~= t0 + (seq![tm@] + ts));
                            p = e + 2;
                        },
                    }
                },
            }
        }
    }

    /// Replaces each placeholder `__GOTEMPL<i>__` with the `i`th template, in
    /// order (see `restore_fold`).
    pub fn restore_go_templates(text: String, templates: &Vec<String>) -> (r: String)
        ensures
            r@ == restore_fold(
                text@,
                templates@.map_values(|x: String| x@),
                templates@.len() as int,
            ),
    {
        let ghost tv = templates@.map_values(|x: String| x@);
        let mut result = chars_of_string(&text);
        let mut i: usize = 0;
        while i < templates.len()
            invariant
                i <= templates.len(),
                tv == templates@.map_values(|x: String| x@),
                result@ == restore_fold(text@, tv, i as int),
            decreases templates.len() - i,
        {
            proof {
                reveal_strlit("__GOTEMPL");
            }
            let ph = placeholder_exec(i);
            assert(ph@.len() > 0) by {
                assert(ph@ == "__GOTEMPL"@ + crate::text::dec(i as nat) + "__"@);
            }
            result = replace_all_exec(&result, &ph, &chars_of_string(&templates[i]));
            i = i + 1;
        }
        string_of(&result)
    }

    /// Expands dotted mapping keys into nested mappings (see `expand`).
    pub fn expand_dot_keys(value: Yaml) -> (r: Yaml)
        ensures
            r.model() == expand(value.model()),
    {
        expand_ref(&value)
    }
}

/// What becomes of a network YAML text once its references are resolved: Go
/// templates set aside, the YAML read, dotted keys expanded, the result written
/// back and the templates restored; or the parse or serialize error.
pub open spec fn network_yaml_from(text: Seq<char>, file_hint: Seq<char>) -> Result<
    Seq<char>,
    Seq<char>,
> {
    let (yt, ts) = extract_from(text, 0, 0);
    match yaml_from_str(yt) {
        Err(e) => Err(file_hint + ": failed to parse YAML: "@ + e),
        Ok(v) => match yaml_to_string(expand(v)) {
            Err(e) => Err(file_hint + ": failed to serialize YAML: "@ + e),
            Ok(out) => Ok(restore_fold(out, ts, ts.len() as int)),
        },
    }
}

/// A network file's lines with list references spliced in (see `splice_lines`).
pub open spec fn spliced_text(
    content: Seq<char>,
    fs: Seq<(Seq<char>, EnvFileV)>,
    cv: Seq<(Seq<char>, ConfigValueV)>,
) -> Seq<char> {
    splice_lines(lines(content), lines(content).len() as int, fs, cv)
}

/// The processed network YAML (see `network_yaml_from`): list references
/// spliced, non-secret references and config variables resolved.
pub open spec fn network_yaml(
    content: Seq<char>,
    file_hint: Seq<char>,
    cv: Seq<(Seq<char>, ConfigValueV)>,
    fs: Seq<(Seq<char>, EnvFileV)>,
) -> Result<Seq<char>, Seq<char>> {
    network_yaml_from(
        template_text(spliced_text(content, fs, cv), fs, cv, TemplateMode::NonSecret),
        file_hint,
    )
}

/// The steps after reference resolution (see `network_yaml_from`).
fn finish_network_yaml(text: &str, file_hint: &str) -> (r: Result<String, String>)
    ensures
        r matches Ok(t) ==> network_yaml_from(text@, file_hint@) == Ok::<Seq<char>, Seq<char>>(t@),
        r matches Err(e) ==> network_yaml_from(text@, file_hint@) == Err::<Seq<char>, Seq<char>>(
            e@,
        ),
{
    let (yaml_text, templates) = ProjectBuilder::extract_go_templates(text);
    match parse_yaml(yaml_text.as_str()) {
        Err(e) => {
            let mut m = chars_of(file_hint);
            append(&mut m, &lit(": failed to parse YAML: "));
            append(&mut m, &chars_of_string(&e));
            Err(string_of(&m))
        },
        Ok(v) => {
            let expanded = ProjectBuilder::expand_dot_keys(v);
            match to_yaml_string(&expanded) {
                Err(e) => {
                    let mut m = chars_of(file_hint);
                    append(&mut m, &lit(": failed to serialize YAML: "));
                    append(&mut m, &chars_of_string(&e));
                    Err(string_of(&m))
                },
                Ok(out) => Ok(ProjectBuilder::restore_go_templates(out, &templates)),
            }
        },
    }
}

impl ProjectBuilder {
    /// Processes a network YAML file (see `network_yaml`): bare list
    /// references become `- item` lines, `${...}` references and config
    /// variables are resolved (secrets left out), Go templates are kept aside
    /// while the YAML is read, dotted keys become nested mappings, and the
    /// text is written back. The references must resolve (see `resolves`).
    pub fn process_network_yaml(
        content: &str,
        file_hint: &str,
        config_vars: &StrMap<ConfigValue>,
        env_files: &StrMap<EnvFile>,
    ) -> (r: Result<String, String>)
        requires
            resolves(spliced_text(content@, env_files@, config_vars@), env_files@, TemplateMode::NonSecret),
        ensures
            r matches Ok(t) ==> network_yaml(content@, file_hint@, config_vars@, env_files@) == Ok::<
                Seq<char>,
                Seq<char>,
            >(t@),
            r matches Err(e) ==> network_yaml(content@, file_hint@, config_vars@, env_files@) == Err::<
                Seq<char>,
                Seq<char>,
            >(e@),
    {
        let text = Self::splice_list_varrefs(content, env_files, config_vars);
        let text = Self::resolve_template_string_nonsecret(text.as_str(), env_files, config_vars);
        finish_network_yaml(text.as_str(), file_hint)
    }

    /// As `process_network_yaml`, giving up (`None`) where the references do not
    /// resolve within `max_steps` steps.
    pub fn process_network_yaml_bounded(
        content: &str,
        file_hint: &str,
        config_vars: &StrMap<ConfigValue>,
        env_files: &StrMap<EnvFile>,
        max_steps: u64,
    ) -> (r: Option<Result<String, String>>)
        ensures
            r matches Some(Ok(t)) ==> network_yaml(content@, file_hint@, config_vars@, env_files@)
                == Ok::<Seq<char>, Seq<char>>(t@),
            r matches Some(Err(e)) ==> network_yaml(content@, file_hint@, config_vars@, env_files@)
                == Err::<Seq<char>, Seq<char>>(e@),
            r is None <==> scan(
                spliced_text(content@, env_files@, config_vars@),
                0,
                env_files@,
                TemplateMode::NonSecret,
                max_steps as nat,
            ) is None,
    {
        let text = Self::splice_list_varrefs(content, env_files, config_vars);
        match resolve_template_bounded(
            text.as_str(),
            env_files,
            config_vars,
            TemplateMode::NonSecret,
            max_steps,
        ) {
            None => None,
            Some(t) => Some(finish_network_yaml(t.as_str(), file_hint)),
        }
    }
}

/// An env source of a service with a variable reference replaced by the
/// variable it names (as an inline source), or dropped with an error message
/// where the file or the variable does not exist.
pub open spec fn resolve_source(
    src: EnvSourceV,
    fs: Seq<(Seq<char>, EnvFileV)>,
    loc: Seq<char>,
    name: Seq<char>,
) -> (Option<EnvSourceV>, Seq<Seq<char>>) {
    match src {
        EnvSourceV::VarRef { key, file, section } => match env_lookup(fs, file) {
            None => (
                None,
                seq![
                    loc + ": env file '"@ + file + "' not found (referenced in env from for '"@
                        + name + "')"@,
                ],
            ),
            Some(f) => match str_get(resolve_section(f, section, 0, fs), key) {
                None => (
                    None,
                    seq![
                        loc + ": variable '"@ + key + "' not found in section '"@ + match section {
                            Some(x) => x,
                            None => "root"@,
                        } + "' of '"@ + file + "' (referenced in env from for '"@ + name + "')"@,
                    ],
                ),
                Some(v) => (
                    Some(EnvSourceV::Inline { key, value: v.value, secret: v.secret }),
                    seq![],
                ),
            },
        },
        other => (Some(other), seq![]),
    }
}

/// The first `n` env sources resolved, and the errors.
pub open spec fn resolve_sources(
    es: Seq<EnvSourceV>,
    n: int,
    fs: Seq<(Seq<char>, EnvFileV)>,
    loc: Seq<char>,
    name: Seq<char>,
) -> (Seq<EnvSourceV>, Seq<Seq<char>>)
    decreases n,
{
    if n <= 0 || n > es.len() {
        (seq![], seq![])
    } else {
        let (srcs, errs) = resolve_sources(es, n - 1, fs, loc, name);
        let (o, e) = resolve_source(es[n - 1], fs, loc, name);
        (
            match o {
                Some(x) => srcs.push(x),
                None => srcs,
            },
            errs + e,
        )
    }
}

/// The secret variables of the first `n` file sources, as inline sources.
pub open spec fn secret_inlines(es: Seq<EnvSourceV>, n: int, fs: Seq<(Seq<char>, EnvFileV)>) -> Seq<
    EnvSourceV,
>
    decreases n,
{
    if n <= 0 || n > es.len() {
        seq![]
    } else {
        secret_inlines(es, n - 1, fs) + match es[n - 1] {
            EnvSourceV::File { file, section } => match env_lookup(fs, file) {
                Some(f) => secret_vars(resolve_section(f, section, 0, fs)),
                None => seq![],
            },
            _ => seq![],
        }
    }
}

/// The secret variables of a resolved section, in order, as inline sources.
pub open spec fn secret_vars(vars: Seq<(Seq<char>, EnvVariableV)>) -> Seq<EnvSourceV>
    decreases vars.len(),
{
    if vars.len() == 0 {
        seq![]
    } else {
        let (k, v) = vars.last();
        secret_vars(vars.drop_last()) + if v.secret {
            seq![EnvSourceV::Inline { key: k, value: v.value, secret: true }]
        } else {
            seq![]
        }
    }
}

/// The first `n` volumes with their host paths resolved, and the messages for
/// references left unresolved.
pub open spec fn resolve_volumes(
    vs: Seq<VolumeV>,
    n: int,
    fs: Seq<(Seq<char>, EnvFileV)>,
    cv: Seq<(Seq<char>, ConfigValueV)>,
    loc: Seq<char>,
) -> (Seq<VolumeV>, Seq<Seq<char>>)
    decreases n,
{
    if n <= 0 || n > vs.len() {
        (seq![], seq![])
    } else {
        let (done, errs) = resolve_volumes(vs, n - 1, fs, cv, loc);
        let v = vs[n - 1];
        let h = template_text(v.host_path, fs, cv, TemplateMode::Full);
        (
            done.push(VolumeV { host_path: h, ..v }),
            errs + unresolved_from(h, 0, loc + " volume '"@ + v.host_path + "'"@),
        )
    }
}

/// The first `n` raw fields with their string values resolved for compose,
/// and the messages for references left unresolved.
pub open spec fn resolve_raw(
    raw: Seq<(Seq<char>, YamlV)>,
    n: int,
    fs: Seq<(Seq<char>, EnvFileV)>,
    cv: Seq<(Seq<char>, ConfigValueV)>,
    loc: Seq<char>,
) -> (Seq<(Seq<char>, YamlV)>, Seq<Seq<char>>)
    decreases n,
{
    if n <= 0 || n > raw.len() {
        (seq![], seq![])
    } else {
        let (done, errs) = resolve_raw(raw, n - 1, fs, cv, loc);
        let (k, v) = raw[n - 1];
        match v {
            YamlV::Str(x) => {
                let r = template_text(x, fs, cv, TemplateMode::Compose);
                (done.push((k, YamlV::Str(r))), errs + unresolved_from(r, 0, loc + " raw '"@ + k + "'"@))
            },
            _ => (done.push((k, v)), errs),
        }
    }
}

/// A service with its env sources, volume paths and raw fields resolved, and
/// the error messages.
pub open spec fn resolve_service(
    s: ServiceBlockV,
    fs: Seq<(Seq<char>, EnvFileV)>,
    cv: Seq<(Seq<char>, ConfigValueV)>,
) -> (ServiceBlockV, Seq<Seq<char>>) {
    let loc = loc_of(s);
    let (srcs, e1) = resolve_sources(s.env_from, s.env_from.len() as int, fs, loc, s.name);
    let all = srcs + secret_inlines(srcs, srcs.len() as int, fs);
    let (vols, e2) = resolve_volumes(s.volumes, s.volumes.len() as int, fs, cv, loc);
    let (raw, e3) = resolve_raw(s.raw, s.raw.len() as int, fs, cv, loc);
    (ServiceBlockV { env_from: all, volumes: vols, raw, ..s }, e1 + e2 + e3)
}

/// The references of a service's volume paths and raw string fields resolve.
pub open spec fn service_resolves(s: ServiceBlockV, fs: Seq<(Seq<char>, EnvFileV)>) -> bool {
    &&& forall|j: int|
        0 <= j < s.volumes.len() ==> resolves(
            #[trigger] s.volumes[j].host_path,
            fs,
            TemplateMode::Full,
        )
    &&& forall|j: int|
        0 <= j < s.raw.len() ==> (#[trigger] s.raw[j].1 matches YamlV::Str(x) ==> resolves(
            x,
            fs,
            TemplateMode::Compose,
        ))
}

/// The first `n` services resolved, and all error messages.
pub open spec fn resolve_services_fold(
    ss: Seq<ServiceBlockV>,
    n: int,
    fs: Seq<(Seq<char>, EnvFileV)>,
    cv: Seq<(Seq<char>, ConfigValueV)>,
) -> (Seq<ServiceBlockV>, Seq<Seq<char>>)
    decreases n,
{
    if n <= 0 || n > ss.len() {
        (seq![], seq![])
    } else {
        let (done, errs) = resolve_services_fold(ss, n - 1, fs, cv);
        let (s, e) = resolve_service(ss[n - 1], fs, cv);
        (done.push(s), errs + e)
    }
}

/// The views of a list of strings.
pub open spec fn svs(v: Seq<String>) -> Seq<Seq<char>> {
    v.map_values(|x: String| x@)
}

/// Appends a string to a list of strings.
fn push_str(v: &mut Vec<String>, t: Vec<char>)
    ensures
        svs(final(v)@) == svs(old(v)@).push(t@),
{
    let ghost before = svs(v@);
    v.push(string_of(&t));
    assert(svs(v@) =~= before.push(t@));
}

/// Appends strings to a list of strings.
fn append_strs(v: &mut Vec<String>, more: Vec<String>)
    ensures
        svs(final(v)@) == svs(old(v)@) + svs(more@),
{
    let ghost a = svs(v@);
    let ghost b = svs(more@);
    let mut more = more;
    v.append(&mut more);
    assert(svs(v@) =~= a + b);
}

/// One env source resolved (see `resolve_source`).
fn resolve_source_exec(
    src: &EnvSource,
    env_files: &StrMap<EnvFile>,
    loc: &Vec<char>,
    name: &String,
) -> (r: (Option<EnvSource>, Vec<String>))
    ensures
        (
            match r.0 {
                Some(x) => Some(x@),
                None => None,
            },
            svs(r.1@),
        ) == resolve_source(src@, env_files@, loc@, name@),
{
    let mut errs: Vec<String> = Vec::new();
    match src {
        EnvSource::VarRef { key, file, section } => {
            match ProjectBuilder::env_file_lookup(env_files, file.as_str()) {
                None => {
                    let mut m = crate::text::concat(loc, &lit(": env file '"));
                    append(&mut m, &chars_of_string(file));
                    append(&mut m, &lit("' not found (referenced in env from for '"));
                    append(&mut m, &chars_of_string(name));
                    append(&mut m, &lit("')"));
                    push_str(&mut errs, m);
                    assert(svs(errs@) =~= seq![m@]);
                    (None, errs)
                },
                Some(ef) => {
                    let vars = match section {
                        Some(x) => ProjectBuilder::resolve_env_section(ef, Some(x.as_str()), 0, env_files),
                        None => ProjectBuilder::resolve_env_section(ef, None, 0, env_files),
                    };
                    match vars.get(key.as_str()) {
                        None => {
                            let mut m = crate::text::concat(loc, &lit(": variable '"));
                            append(&mut m, &chars_of_string(key));
                            append(&mut m, &lit("' not found in section '"));
                            match section {
                                Some(x) => append(&mut m, &chars_of_string(x)),
                                None => append(&mut m, &lit("root")),
                            }
                            append(&mut m, &lit("' of '"));
                            append(&mut m, &chars_of_string(file));
                            append(&mut m, &lit("' (referenced in env from for '"));
                            append(&mut m, &chars_of_string(name));
                            append(&mut m, &lit("')"));
                            push_str(&mut errs, m);
                            assert(svs(errs@) =~= seq![m@]);
                            (None, errs)
                        },
                        Some(v) => {
                            assert(svs(errs@) =~= Seq::<Seq<char>>::empty());
                            (
                                Some(
                                    EnvSource::Inline {
                                        key: key.clone(),
                                        value: v.value.clone(),
                                        secret: v.secret,
                                    },
                                ),
                                errs,
                            )
                        },
                    }
                },
            }
        },
        _ => {
            assert(svs(errs@) =~= Seq::<Seq<char>>::empty());
            (Some(src.copy()), errs)
        },
    }
}

/// The env sources resolved (see `resolve_sources`).
fn resolve_sources_exec(
    es: &Vec<EnvSource>,
    env_files: &StrMap<EnvFile>,
    loc: &Vec<char>,
    name: &String,
) -> (r: (Vec<EnvSource>, Vec<String>))
    ensures
        (r.0@.map_values(|e: EnvSource| e@), svs(r.1@)) == resolve_sources(
            es@.map_values(|e: EnvSource| e@),
            es@.len() as int,
            env_files@,
            loc@,
            name@,
        ),
{
    let ghost ev = es@.map_values(|e: EnvSource| e@);
    let mut out: Vec<EnvSource> = Vec::new();
    let mut errs: Vec<String> = Vec::new();
    let mut i: usize = 0;
    assert(out@.map_values(|e: EnvSource| e@) =~= Seq::<EnvSourceV>::empty());
    assert(svs(errs@) =~= Seq::<Seq<char>>::empty());
    while i < es.len()
        invariant
            i <= es.len(),
            ev == es@.map_values(|e: EnvSource| e@),
            (out@.map_values(|e: EnvSource| e@), svs(errs@)) == resolve_sources(
                ev,
                i as int,
                env_files@,
                loc@,
                name@,
            ),
        decreases es.len() - i,
    {
        assert(ev[i as int] == es@[i as int]@);
        let (o, e) = resolve_source_exec(&es[i], env_files, loc, name);
        let ghost before = out@.map_values(|e: EnvSource| e@);
        match o {
            Some(x) => {
                out.push(x);
                assert(out@.map_values(|e: EnvSource| e@) =~= before.push(x@));
            },
            None => {},
        }
        append_strs(&mut errs, e);
        i = i + 1;
    }
    (out, errs)
}

/// The secret variables of a resolved section as inline sources (see `secret_vars`).
fn secret_vars_exec(vars: &StrMap<EnvVariable>) -> (r: Vec<EnvSource>)
    ensures
        r@.map_values(|e: EnvSource| e@) == secret_vars(vars@),
{
    let ghost vv = vars@;
    let mut out: Vec<EnvSource> = Vec::new();
    let mut i: usize = 0;
    assert(out@.map_values(|e: EnvSource| e@) =~= secret_vars(vv.take(0)));
    while i < vars.entries.len()
        invariant
            i <= vars.entries.len(),
            vv == vars@,
            out@.map_values(|e: EnvSource| e@) == secret_vars(vv.take(i as int)),
        decreases vars.entries.len() - i,
    {
        let e = &vars.entries[i];
        assert(vv.take(i as int + 1).drop_last() =~= vv.take(i as int));
        assert(vv.take(i as int + 1).last() == (e.key@, e.value@));
        let ghost before = out@.map_values(|e: EnvSource| e@);
        if e.value.secret {
            let x = EnvSource::Inline { key: e.key.clone(), value: e.value.value.clone(), secret: true };
            out.push(x);
            assert(out@.map_values(|e: EnvSource| e@) =~= before + seq![x@]);
        } else {
            assert(out@.map_values(|e: EnvSource| e@) =~= before + Seq::<EnvSourceV>::empty());
        }
        i = i + 1;
    }
    assert(vv.take(vars.entries.len() as int) =~= vv);
    out
}

/// The secret variables of the file sources (see `secret_inlines`).
#[verifier::rlimit(40)]
fn secret_inlines_exec(es: &Vec<EnvSource>, env_files: &StrMap<EnvFile>) -> (r: Vec<EnvSource>)
    ensures
        r@.map_values(|e: EnvSource| e@) == secret_inlines(
            es@.map_values(|e: EnvSource| e@),
            es@.len() as int,
            env_files@,
        ),
{
    let ghost ev = es@.map_values(|e: EnvSource| e@);
    let mut out: Vec<EnvSource> = Vec::new();
    let mut i: usize = 0;
    assert(out@.map_values(|e: EnvSource| e@) =~= Seq::<EnvSourceV>::empty());
    while i < es.len()
        invariant
            i <= es.len(),
            ev == es@.map_values(|e: EnvSource| e@),
            out@.map_values(|e: EnvSource| e@) == secret_inlines(ev, i as int, env_files@),
        decreases es.len() - i,
    {
        assert(ev[i as int] == es@[i as int]@);
        let ghost before = out@.map_values(|e: EnvSource| e@);
        match &es[i] {
            EnvSource::File { file, section } => {
                match ProjectBuilder::env_file_lookup(env_files, file.as_str()) {
                    Some(ef) => {
                        let vars = match section {
                            Some(x) => ProjectBuilder::resolve_env_section(ef, Some(x.as_str()), 0, env_files),
                            None => ProjectBuilder::resolve_env_section(ef, None, 0, env_files),
                        };
                        let mut more = secret_vars_exec(&vars);
                        let ghost mv = more@.map_values(|e: EnvSource| e@);
                        out.append(&mut more);
                        assert(out@.map_values(|e: EnvSource| e@) =~= before + mv);
                    },
                    None => {
                        assert(out@.map_values(|e: EnvSource| e@) =~= before + Seq::<EnvSourceV>::empty());
                    },
                }
            },
            _ => {
                assert(out@.map_values(|e: EnvSource| e@) =~= before + Seq::<EnvSourceV>::empty());
            },
        }
        i = i + 1;
    }
    out
}

/// The volumes with host paths resolved (see `resolve_volumes`).
fn resolve_volumes_exec(
    vs: &Vec<Volume>,
    env_files: &StrMap<EnvFile>,
    config_vars: &StrMap<ConfigValue>,
    loc: &Vec<char>,
) -> (r: (Vec<Volume>, Vec<String>))
    requires
        forall|j: int|
            0 <= j < vs@.len() ==> resolves(
                #[trigger] vs@[j].host_path@,
                env_files@,
                TemplateMode::Full,
            ),
    ensures
        (r.0@.map_values(|v: Volume| v@), svs(r.1@)) == resolve_volumes(
            vs@.map_values(|v: Volume| v@),
            vs@.len() as int,
            env_files@,
            config_vars@,
            loc@,
        ),
{
    let ghost vv = vs@.map_values(|v: Volume| v@);
    let mut out: Vec<Volume> = Vec::new();
    let mut errs: Vec<String> = Vec::new();
    let mut i: usize = 0;
    assert(out@.map_values(|v: Volume| v@) =~= Seq::<VolumeV>::empty());
    assert(svs(errs@) =~= Seq::<Seq<char>>::empty());
    while i < vs.len()
        invariant
            i <= vs.len(),
            vv == vs@.map_values(|v: Volume| v@),
            forall|j: int|
                0 <= j < vs@.len() ==> resolves(
                    #[trigger] vs@[j].host_path@,
                    env_files@,
                    TemplateMode::Full,
                ),
            (out@.map_values(|v: Volume| v@), svs(errs@)) == resolve_volumes(
                vv,
                i as int,
                env_files@,
                config_vars@,
                loc@,
            ),
        decreases vs.len() - i,
    {
        let v = &vs[i];
        assert(vv[i as int] == v@);
        let h = resolve_template(v.host_path.as_str(), env_files, config_vars, TemplateMode::Full);
        let mut what = crate::text::concat(loc, &lit(" volume '"));
        append(&mut what, &chars_of_string(&v.host_path));
        append(&mut what, &lit("'"));
        let w = string_of(&what);
        let mut e: Vec<String> = Vec::new();
        ProjectBuilder::check_unresolved(h.as_str(), w.as_str(), &mut e);
        assert(svs(e@) =~= Seq::<Seq<char>>::empty() + unresolved_from(h@, 0, w@));
        let nv = Volume {
            container_path: v.container_path.clone(),
            host_path: h,
            mode: crate::parse::env::copy_opt(&v.mode),
        };
        let ghost before = out@.map_values(|v: Volume| v@);
        out.push(nv);
        assert(out@.map_values(|v: Volume| v@) =~= before.push(VolumeV { host_path: nv.host_path@, ..v@ }));
        append_strs(&mut errs, e);
        i = i + 1;
    }
    (out, errs)
}

/// The raw fields with string values resolved (see `resolve_raw`).
fn resolve_raw_exec(
    raw: &StrMap<Yaml>,
    env_files: &StrMap<EnvFile>,
    config_vars: &StrMap<ConfigValue>,
    loc: &Vec<char>,
) -> (r: (StrMap<Yaml>, Vec<String>))
    requires
        forall|j: int|
            0 <= j < raw@.len() ==> (#[trigger] raw@[j].1 matches YamlV::Str(x) ==> resolves(
                x,
                env_files@,
                TemplateMode::Compose,
            )),
    ensures
        (r.0@, svs(r.1@)) == resolve_raw(raw@, raw@.len() as int, env_files@, config_vars@, loc@),
{
    let ghost rv = raw@;
    let mut out: Vec<StrEntry<Yaml>> = Vec::new();
    let mut errs: Vec<String> = Vec::new();
    let mut i: usize = 0;
    assert((StrMap { entries: out })@ =~= Seq::<(Seq<char>, YamlV)>::empty());
    assert(svs(errs@) =~= Seq::<Seq<char>>::empty());
    while i < raw.entries.len()
        invariant
            i <= raw.entries.len(),
            rv == raw@,
            forall|j: int|
                0 <= j < raw@.len() ==> (#[trigger] raw@[j].1 matches YamlV::Str(x) ==> resolves(
                    x,
                    env_files@,
                    TemplateMode::Compose,
                )),
            ((StrMap { entries: out })@, svs(errs@)) == resolve_raw(
                rv,
                i as int,
                env_files@,
                config_vars@,
                loc@,
            ),
        decreases raw.entries.len() - i,
    {
        let e = &raw.entries[i];
        assert(rv[i as int] == (e.key@, e.value@));
        let ghost before = (StrMap { entries: out })@;
        match &e.value {
            Yaml::Str(x) => {
                assert(rv[i as int].1 == YamlV::Str(x@));
                let r = resolve_template(x.as_str(), env_files, config_vars, TemplateMode::Compose);
                let mut what = crate::text::concat(loc, &lit(" raw '"));
                append(&mut what, &chars_of_string(&e.key));
                append(&mut what, &lit("'"));
                let w = string_of(&what);
                let mut es: Vec<String> = Vec::new();
                ProjectBuilder::check_unresolved(r.as_str(), w.as_str(), &mut es);
                assert(svs(es@) =~= Seq::<Seq<char>>::empty() + unresolved_from(r@, 0, w@));
                let ghost rr = r@;
                out.push(StrEntry { key: e.key.clone(), value: Yaml::Str(r) });
                assert((StrMap { entries: out })@ =~= before.push((e.key@, YamlV::Str(rr))));
                append_strs(&mut errs, es);
            },
            _ => {
                let c = yaml_copy(&e.value);
                out.push(StrEntry { key: e.key.clone(), value: c });
                assert((StrMap { entries: out })@ =~= before.push((e.key@, e.value@)));
            },
        }
        i = i + 1;
    }
    (StrMap { entries: out }, errs)
}

/// One service resolved (see `resolve_service`).
fn resolve_service_exec(
    s: &ServiceBlock,
    env_files: &StrMap<EnvFile>,
    config_vars: &StrMap<ConfigValue>,
) -> (r: (ServiceBlock, Vec<String>))
    requires
        service_resolves(s@, env_files@),
    ensures
        (r.0@, svs(r.1@)) == resolve_service(s@, env_files@, config_vars@),
{
    let loc = loc_exec(s);
    let (srcs, e1) = resolve_sources_exec(&s.env_from, env_files, &loc, &s.name);
    let mut all = crate::parse::env::copy_sources(&srcs);
    let mut more = secret_inlines_exec(&srcs, env_files);
    let ghost av = all@.map_values(|e: EnvSource| e@);
    let ghost mv = more@.map_values(|e: EnvSource| e@);
    all.append(&mut more);
    assert(all@.map_values(|e: EnvSource| e@) =~= av + mv);
    assert forall|j: int| 0 <= j < s.volumes@.len() implies resolves(
        #[trigger] s.volumes@[j].host_path@,
        env_files@,
        TemplateMode::Full,
    ) by {
        assert(s@.volumes[j] == s.volumes@[j]@);
        assert(resolves(s@.volumes[j].host_path, env_files@, TemplateMode::Full));
    }
    let (vols, e2) = resolve_volumes_exec(&s.volumes, env_files, config_vars, &loc);
    let (raw, e3) = resolve_raw_exec(&s.raw, env_files, config_vars, &loc);
    let mut errs = e1;
    append_strs(&mut errs, e2);
    append_strs(&mut errs, e3);
    let mut out = s.copy();
    out.env_from = all;
    out.volumes = vols;
    out.raw = raw;
    (out, errs)
}

impl ProjectBuilder {
    /// The services with their variable references resolved (see
    /// `resolve_services_fold`): `Ok` when no error was found, otherwise all
    /// error messages joined by line feeds.
    pub fn resolve_services(
        services: &[ServiceBlock],
        env_files: &StrMap<EnvFile>,
        config_vars: &StrMap<ConfigValue>,
    ) -> (r: Result<Vec<ServiceBlock>, String>)
        requires
            forall|i: int| 0 <= i < services@.len() ==> service_resolves(#[trigger] services@[i]@, env_files@),
        ensures
            ({
                let (ss, errs) = resolve_services_fold(
                    services@.map_values(|s: ServiceBlock| s@),
                    services@.len() as int,
                    env_files@,
                    config_vars@,
                );
                &&& r matches Ok(v) ==> errs.len() == 0 && v@.map_values(|s: ServiceBlock| s@) == ss
                &&& r matches Err(e) ==> errs.len() > 0 && e@ == crate::text::join(errs, "\n"@)
            }),
    {
        let ghost sv = services@.map_values(|s: ServiceBlock| s@);
        let mut out: Vec<ServiceBlock> = Vec::new();
        let mut errs: Vec<String> = Vec::new();
        let mut i: usize = 0;
        assert(out@.map_values(|s: ServiceBlock| s@) =~= Seq::<ServiceBlockV>::empty());
        assert(svs(errs@) =~= Seq::<Seq<char>>::empty());
        while i < services.len()
            invariant
                i <= services.len(),
                sv == services@.map_values(|s: ServiceBlock| s@),
                forall|i: int| 0 <= i < services@.len() ==> service_resolves(#[trigger] services@[i]@, env_files@),
                (out@.map_values(|s: ServiceBlock| s@), svs(errs@)) == resolve_services_fold(
                    sv,
                    i as int,
                    env_files@,
                    config_vars@,
                ),
            decreases services.len() - i,
        {
            assert(sv[i as int] == services@[i as int]@);
            let (x, e) = resolve_service_exec(&services[i], env_files, config_vars);
            let ghost before = out@.map_values(|s: ServiceBlock| s@);
            out.push(x);
            assert(out@.map_values(|s: ServiceBlock| s@) =~= before.push(x@));
            append_strs(&mut errs, e);
            i = i + 1;
        }
        if errs.len() == 0 {
            Ok(out)
        } else {
            let mut parts: Vec<Vec<char>> = Vec::new();
            let mut k: usize = 0;
            while k < errs.len()
                invariant
                    k <= errs.len(),
                    views(parts@) == svs(errs@).take(k as int),
                decreases errs.len() - k,
            {
                let ghost prev = views(parts@);
                let x = chars_of_string(&errs[k]);
                parts.push(x);
                assert(views(parts@) =~= prev.push(x@));
                assert(svs(errs@).take(k as int + 1) =~= svs(errs@).take(k as int).push(errs@[k as int]@));
                k = k + 1;
            }
            assert(svs(errs@).take(k as int) =~= svs(errs@));
            Err(string_of(&crate::text::join_exec(&parts, &lit("\n"))))
        }
    }
}

/// `m` with the pairs `es` inserted in order (later values replace earlier).
pub open spec fn insert_pairs(
    m: Seq<(Seq<char>, Seq<char>)>,
    es: Seq<(Seq<char>, Seq<char>)>,
) -> Seq<(Seq<char>, Seq<char>)>
    decreases es.len(),
{
    if es.len() == 0 {
        m
    } else {
        str_insert(insert_pairs(m, es.drop_last()), es.last().0, es.last().1)
    }
}

/// The config variables with their values (secret or not).
pub open spec fn config_pairs(cv: Seq<(Seq<char>, ConfigValueV)>) -> Seq<(Seq<char>, Seq<char>)> {
    cv.map_values(
        |e: (Seq<char>, ConfigValueV)|
            (
                e.0,
                match e.1 {
                    ConfigValueV::String(x) => x,
                    ConfigValueV::Secret(x) => x,
                },
            ),
    )
}

/// The env sources of all services, in order.
pub open spec fn all_sources(ss: Seq<ServiceBlockV>) -> Seq<EnvSourceV>
    decreases ss.len(),
{
    if ss.len() == 0 {
        seq![]
    } else {
        all_sources(ss.drop_last()) + ss.last().env_from
    }
}

/// `pool` with the variables of `vars` whose secrecy is `secret` added where
/// their name is not there yet.
pub open spec fn pool_add_vars(
    pool: Seq<(Seq<char>, Seq<char>)>,
    vars: Seq<(Seq<char>, EnvVariableV)>,
    secret: bool,
) -> Seq<(Seq<char>, Seq<char>)>
    decreases vars.len(),
{
    if vars.len() == 0 {
        pool
    } else {
        let p = pool_add_vars(pool, vars.drop_last(), secret);
        let (k, v) = vars.last();
        if v.secret == secret && str_get(p, k) is None {
            p.push((k, v.value))
        } else {
            p
        }
    }
}

/// `pool_add_vars` for the root section, then the first `n` named sections.
pub open spec fn pool_add_sections(
    pool: Seq<(Seq<char>, Seq<char>)>,
    f: EnvFileV,
    n: int,
    secret: bool,
    fs: Seq<(Seq<char>, EnvFileV)>,
) -> Seq<(Seq<char>, Seq<char>)>
    decreases n,
{
    if n <= 0 || n > f.sections.len() {
        pool_add_vars(pool, resolve_section(f, None, 0, fs), secret)
    } else {
        pool_add_vars(
            pool_add_sections(pool, f, n - 1, secret, fs),
            resolve_section(f, Some(f.sections[n - 1].0), 0, fs),
            secret,
        )
    }
}

/// The variables (secret or not, as asked) of the env files that the first
/// `n` sources read, each file once, each name with its first value.
pub open spec fn pool_fold(
    srcs: Seq<EnvSourceV>,
    n: int,
    fs: Seq<(Seq<char>, EnvFileV)>,
    secret: bool,
) -> (Seq<(Seq<char>, Seq<char>)>, Seq<Seq<char>>)
    decreases n,
{
    if n <= 0 || n > srcs.len() {
        (seq![], seq![])
    } else {
        let (pool, seen) = pool_fold(srcs, n - 1, fs, secret);
        match srcs[n - 1] {
            EnvSourceV::File { file, .. } => if file.len() == 0 || seen.contains(file) {
                (pool, seen)
            } else {
                (
                    match env_lookup(fs, file) {
                        Some(f) => pool_add_sections(pool, f, f.sections.len() as int, secret, fs),
                        None => pool,
                    },
                    seen.push(file),
                )
            },
            _ => (pool, seen),
        }
    }
}

/// The variables available to the root `.env`: the env files' non-secret
/// variables, then their secrets, then the config variables (later ones win).
pub open spec fn flat_pool(
    ss: Seq<ServiceBlockV>,
    fs: Seq<(Seq<char>, EnvFileV)>,
    cv: Seq<(Seq<char>, ConfigValueV)>,
) -> Seq<(Seq<char>, Seq<char>)> {
    let srcs = all_sources(ss);
    let cand = pool_fold(srcs, srcs.len() as int, fs, false).0;
    let secr = pool_fold(srcs, srcs.len() as int, fs, true).0;
    insert_pairs(insert_pairs(cand, secr), config_pairs(cv))
}

/// `${k}` of a name.
pub open spec fn var_placeholder(k: Seq<char>) -> Seq<char> {
    "${"@ + k + "}"@
}

/// A value with the first `n` variables of `snap` substituted, in order, and
/// whether any placeholder was found.
pub open spec fn subst_value(
    val: Seq<char>,
    snap: Seq<(Seq<char>, Seq<char>)>,
    n: int,
) -> (Seq<char>, bool)
    decreases n,
{
    if n <= 0 || n > snap.len() {
        (val, false)
    } else {
        let (v, ch) = subst_value(val, snap, n - 1);
        let (k, x) = snap[n - 1];
        if contains(v, var_placeholder(k)) {
            (replace_all(v, var_placeholder(k), x), true)
        } else {
            (v, ch)
        }
    }
}

/// One round of expansion: every value with the variables of the map as it
/// was before the round substituted, and whether anything changed.
pub open spec fn expand_round(flat: Seq<(Seq<char>, Seq<char>)>) -> (Seq<(Seq<char>, Seq<char>)>, bool) {
    (
        flat.map_values(
            |e: (Seq<char>, Seq<char>)| (e.0, subst_value(e.1, flat, flat.len() as int).0),
        ),
        exists|i: int| 0 <= i < flat.len() && #[trigger] subst_value(flat[i].1, flat, flat.len() as int).1,
    )
}

/// Up to `n` rounds of expansion, stopping after a round that changed nothing.
pub open spec fn expand_rounds(flat: Seq<(Seq<char>, Seq<char>)>, n: nat) -> Seq<(Seq<char>, Seq<char>)>
    decreases n,
{
    if n == 0 {
        flat
    } else {
        let (f2, ch) = expand_round(flat);
        if ch {
            expand_rounds(f2, (n - 1) as nat)
        } else {
            f2
        }
    }
}

/// The root `.env` variables after the compose text was scanned from `i`:
/// each `${NAME}` (no `@`) that is not set yet and has a value in `flat`
/// is added.
pub open spec fn add_compose_refs(
    env: Seq<(Seq<char>, Seq<char>)>,
    text: Seq<char>,
    i: int,
    flat: Seq<(Seq<char>, Seq<char>)>,
) -> Seq<(Seq<char>, Seq<char>)>
    decreases text.len() - i,
{
    if i < 0 || i >= text.len() {
        env
    } else {
        match ref_at(text, i) {
            None => env,
            Some((st, e)) => {
                proof {
                    lemma_ref_at(text, i);
                }
                let expr = text.subrange(st + 2, e);
                let env2 = if !contains(expr, "@"@) && str_get(env, expr) is None {
                    match str_get(flat, expr) {
                        Some(v) => str_insert(env, expr, v),
                        None => env,
                    }
                } else {
                    env
                };
                add_compose_refs(env2, text, e + 1, flat)
            },
        }
    }
}

/// `NAME=value`.
pub open spec fn pair_line(e: (Seq<char>, Seq<char>)) -> Seq<char> {
    e.0 + "="@ + e.1
}

/// The root `.env` text: the config variables and the variables the compose
/// text refers to as `${NAME}`, as sorted `NAME=value` lines.
pub open spec fn root_env_text(
    ss: Seq<ServiceBlockV>,
    fs: Seq<(Seq<char>, EnvFileV)>,
    cv: Seq<(Seq<char>, ConfigValueV)>,
    compose: Seq<char>,
) -> Seq<char> {
    let flat = expand_rounds(flat_pool(ss, fs, cv), 10);
    let env = add_compose_refs(insert_pairs(seq![], config_pairs(cv)), compose, 0, flat);
    crate::text::join(
        env.map_values(|e: (Seq<char>, Seq<char>)| pair_line(e)).sort_by(crate::text::lex_leq()),
        "\n"@,
    )
}

/// Inserts the pairs of `es` into `m`, in order (see `insert_pairs`).
fn insert_pairs_exec(m: &mut StrMap<String>, es: &StrMap<String>)
    ensures
        final(m)@ == insert_pairs(old(m)@, es@),
{
    let ghost m0 = m@;
    let ghost ev = es@;
    let mut i: usize = 0;
    while i < es.entries.len()
        invariant
            i <= es.entries.len(),
            ev == es@,
            m@ == insert_pairs(m0, ev.take(i as int)),
        decreases es.entries.len() - i,
    {
        let e = &es.entries[i];
        assert(ev.take(i as int + 1).drop_last() =~= ev.take(i as int));
        assert(ev.take(i as int + 1).last() == (e.key@, e.value@));
        m.insert(e.key.clone(), e.value.clone());
        i = i + 1;
    }
    assert(ev.take(es.entries.len() as int) =~= ev);
}

/// The config variables with their values (see `config_pairs`).
fn config_pairs_exec(cv: &StrMap<ConfigValue>) -> (r: StrMap<String>)
    ensures
        r@ == config_pairs(cv@),
{
    let mut out: Vec<StrEntry<String>> = Vec::new();
    let mut i: usize = 0;
    while i < cv.entries.len()
        invariant
            i <= cv.entries.len(),
            (StrMap { entries: out })@ == config_pairs(cv@).take(i as int),
        decreases cv.entries.len() - i,
    {
        let e = &cv.entries[i];
        let v = match &e.value {
            ConfigValue::String(x) => x.clone(),
            ConfigValue::Secret(x) => x.clone(),
        };
        let ghost before = (StrMap { entries: out })@;
        let ghost vv = v@;
        out.push(StrEntry { key: e.key.clone(), value: v });
        assert((StrMap { entries: out })@ =~= before.push((e.key@, vv)));
        assert(config_pairs(cv@).take(i as int + 1) =~= config_pairs(cv@).take(i as int).push(
            (e.key@, vv),
        ));
        i = i + 1;
    }
    assert(config_pairs(cv@).take(cv.entries.len() as int) =~= config_pairs(cv@));
    StrMap { entries: out }
}

/// The env sources of all services (see `all_sources`).
fn all_sources_exec(ss: &[ServiceBlock]) -> (r: Vec<EnvSource>)
    ensures
        r@.map_values(|e: EnvSource| e@) == all_sources(ss@.map_values(|s: ServiceBlock| s@)),
{
    let ghost sv = ss@.map_values(|s: ServiceBlock| s@);
    let mut out: Vec<EnvSource> = Vec::new();
    let mut i: usize = 0;
    assert(out@.map_values(|e: EnvSource| e@) =~= all_sources(sv.take(0)));
    while i < ss.len()
        invariant
            i <= ss.len(),
            sv == ss@.map_values(|s: ServiceBlock| s@),
            out@.map_values(|e: EnvSource| e@) == all_sources(sv.take(i as int)),
        decreases ss.len() - i,
    {
        assert(sv.take(i as int + 1).drop_last() =~= sv.take(i as int));
        assert(sv.take(i as int + 1).last() == ss@[i as int]@);
        let ghost before = out@.map_values(|e: EnvSource| e@);
        let mut more = crate::parse::env::copy_sources(&ss[i].env_from);
        let ghost mv = more@.map_values(|e: EnvSource| e@);
        out.append(&mut more);
        assert(out@.map_values(|e: EnvSource| e@) =~= before + mv);
        i = i + 1;
    }
    assert(sv.take(ss.len() as int) =~= sv);
    out
}

/// Adds variables to a pool (see `pool_add_vars`).
fn pool_add_vars_exec(pool: &mut StrMap<String>, vars: &StrMap<EnvVariable>, secret: bool)
    ensures
        final(pool)@ == pool_add_vars(old(pool)@, vars@, secret),
{
    let ghost p0 = pool@;
    let ghost vv = vars@;
    let mut i: usize = 0;
    while i < vars.entries.len()
        invariant
            i <= vars.entries.len(),
            vv == vars@,
            pool@ == pool_add_vars(p0, vv.take(i as int), secret),
        decreases vars.entries.len() - i,
    {
        let e = &vars.entries[i];
        assert(vv.take(i as int + 1).drop_last() =~= vv.take(i as int));
        assert(vv.take(i as int + 1).last() == (e.key@, e.value@));
        if e.value.secret == secret && !pool.contains_key(e.key.as_str()) {
            let ghost before = pool@;
            pool.entries.push(StrEntry { key: e.key.clone(), value: e.value.value.clone() });
            assert(pool@ =~= before.push((e.key@, e.value@.value)));
        }
        i = i + 1;
    }
    assert(vv.take(vars.entries.len() as int) =~= vv);
}

/// Adds the variables of every section of a file to a pool (see `pool_add_sections`).
#[verifier::spinoff_prover]
#[verifier::rlimit(60)]
fn pool_add_sections_exec(pool: &mut StrMap<String>, f: &EnvFile, secret: bool, env_files: &StrMap<EnvFile>)
    ensures
        final(pool)@ == pool_add_sections(old(pool)@, f@, f@.sections.len() as int, secret, env_files@),
{
    let ghost p0 = pool@;
    let ghost fv = f@;
    let ghost fs = env_files@;
    let root = ProjectBuilder::resolve_env_section(f, None, 0, env_files);
    assert(root@ == resolve_section(fv, None, 0, fs));
    pool_add_vars_exec(pool, &root, secret);
    assert(pool@ == pool_add_sections(p0, fv, 0, secret, fs));
    let mut i: usize = 0;
    while i < f.sections.entries.len()
        invariant
            i <= f.sections.entries.len(),
            fv == f@,
            fs == env_files@,
            pool@ == pool_add_sections(p0, fv, i as int, secret, fs),
        decreases f.sections.entries.len() - i,
    {
        let e = &f.sections.entries[i];
        assert(fv.sections[i as int].0 == e.key@);
        let ghost before = pool@;
        let vars = ProjectBuilder::resolve_env_section(f, Some(e.key.as_str()), 0, env_files);
        assert(vars@ == resolve_section(fv, Some(fv.sections[i as int].0), 0, fs));
        pool_add_vars_exec(pool, &vars, secret);
        assert(pool@ == pool_add_vars(before, resolve_section(fv, Some(fv.sections[i as int].0), 0, fs), secret));
        assert(pool@ == pool_add_sections(p0, fv, i as int + 1, secret, fs));
        i = i + 1;
    }
}

/// Whether a list of strings holds one.
fn holds_str(v: &Vec<String>, x: &String) -> (r: bool)
    ensures
        r == svs(v@).contains(x@),
{
    let mut i: usize = 0;
    while i < v.len()
        invariant
            i <= v.len(),
            forall|j: int| 0 <= j < i ==> svs(v@)[j] != x@,
        decreases v.len() - i,
    {
        if v[i] == *x {
            assert(svs(v@)[i as int] == x@);
            return true;
        }
        i = i + 1;
    }
    false
}

/// The pool of the sources (see `pool_fold`).
fn pool_fold_exec(srcs: &Vec<EnvSource>, env_files: &StrMap<EnvFile>, secret: bool) -> (r:
    StrMap<String>)
    ensures
        r@ == pool_fold(
            srcs@.map_values(|e: EnvSource| e@),
            srcs@.len() as int,
            env_files@,
            secret,
        ).0,
{
    let ghost ev = srcs@.map_values(|e: EnvSource| e@);
    let mut pool: StrMap<String> = StrMap::new();
    let mut seen: Vec<String> = Vec::new();
    let mut i: usize = 0;
    assert(svs(seen@) =~= Seq::<Seq<char>>::empty());
    while i < srcs.len()
        invariant
            i <= srcs.len(),
            ev == srcs@.map_values(|e: EnvSource| e@),
            (pool@, svs(seen@)) == pool_fold(ev, i as int, env_files@, secret),
        decreases srcs.len() - i,
    {
        assert(ev[i as int] == srcs@[i as int]@);
        match &srcs[i] {
            EnvSource::File { file, .. } => {
                if file.as_str().unicode_len() > 0 && !holds_str(&seen, file) {
                    match ProjectBuilder::env_file_lookup(env_files, file.as_str()) {
                        Some(f) => pool_add_sections_exec(&mut pool, f, secret, env_files),
                        None => {},
                    }
                    let ghost before = svs(seen@);
                    seen.push(file.clone());
                    assert(svs(seen@) =~= before.push(file@));
                }
            },
            _ => {},
        }
        i = i + 1;
    }
    pool
}

/// The pool of variables for the root `.env` (see `flat_pool`).
fn flat_pool_exec(
    services: &[ServiceBlock],
    env_files: &StrMap<EnvFile>,
    config_vars: &StrMap<ConfigValue>,
) -> (r: StrMap<String>)
    ensures
        r@ == flat_pool(services@.map_values(|s: ServiceBlock| s@), env_files@, config_vars@),
{
    let srcs = all_sources_exec(services);
    let mut flat = pool_fold_exec(&srcs, env_files, false);
    let secrets = pool_fold_exec(&srcs, env_files, true);
    insert_pairs_exec(&mut flat, &secrets);
    insert_pairs_exec(&mut flat, &config_pairs_exec(config_vars));
    flat
}

/// `${k}` of a name.
fn var_placeholder_exec(k: &String) -> (r: Vec<char>)
    ensures
        r@ == var_placeholder(k@),
        r@.len() > 0,
{
    proof {
        reveal_strlit("${");
    }
    let mut t = lit("${");
    append(&mut t, &chars_of_string(k));
    append(&mut t, &lit("}"));
    t
}

/// A value with the variables of `snap` substituted (see `subst_value`).
fn subst_value_exec(val: &String, snap: &StrMap<String>) -> (r: (Vec<char>, bool))
    ensures
        (r.0@, r.1) == subst_value(val@, snap@, snap@.len() as int),
{
    let ghost sv = snap@;
    let mut v = chars_of_string(val);
    let mut changed = false;
    let mut j: usize = 0;
    while j < snap.entries.len()
        invariant
            j <= snap.entries.len(),
            sv == snap@,
            (v@, changed) == subst_value(val@, sv, j as int),
        decreases snap.entries.len() - j,
    {
        let e = &snap.entries[j];
        assert(sv[j as int] == (e.key@, e.value@));
        let ph = var_placeholder_exec(&e.key);
        if contains_exec(&v, &ph) {
            v = replace_all_exec(&v, &ph, &chars_of_string(&e.value));
            changed = true;
        }
        j = j + 1;
    }
    (v, changed)
}

/// One round of expansion (see `expand_round`).
fn expand_round_exec(flat: &StrMap<String>) -> (r: (StrMap<String>, bool))
    ensures
        (r.0@, r.1) == expand_round(flat@),
{
    let ghost fv = flat@;
    let mut out: Vec<StrEntry<String>> = Vec::new();
    let mut changed = false;
    let mut i: usize = 0;
    while i < flat.entries.len()
        invariant
            i <= flat.entries.len(),
            fv == flat@,
            (StrMap { entries: out })@ == expand_round(fv).0.take(i as int),
            changed == exists|k: int| 0 <= k < i && #[trigger] subst_value(fv[k].1, fv, fv.len() as int).1,
        decreases flat.entries.len() - i,
    {
        let e = &flat.entries[i];
        assert(fv[i as int] == (e.key@, e.value@));
        let (v, ch) = subst_value_exec(&e.value, flat);
        let ghost before = (StrMap { entries: out })@;
        let ghost vv = v@;
        out.push(StrEntry { key: e.key.clone(), value: string_of(&v) });
        assert((StrMap { entries: out })@ =~= before.push((e.key@, vv)));
        assert(expand_round(fv).0.take(i as int + 1) =~= expand_round(fv).0.take(i as int).push(
            (e.key@, vv),
        ));
        if ch {
            assert(subst_value(fv[i as int].1, fv, fv.len() as int).1);
        }
        changed = changed || ch;
        i = i + 1;
    }
    assert(expand_round(fv).0.take(flat.entries.len() as int) =~= expand_round(fv).0);
    (StrMap { entries: out }, changed)
}

/// Up to `n` rounds of expansion (see `expand_rounds`).
fn expand_rounds_exec(flat: StrMap<String>, n: u64) -> (r: StrMap<String>)
    ensures
        r@ == expand_rounds(flat@, n as nat),
{
    let ghost target = expand_rounds(flat@, n as nat);
    let mut f = flat;
    let mut k: u64 = n;
    while k > 0
        invariant
            expand_rounds(f@, k as nat) == target,
            target == expand_rounds(flat@, n as nat),
        decreases k,
    {
        let (f2, ch) = expand_round_exec(&f);
        if !ch {
            return f2;
        }
        f = f2;
        k = k - 1;
    }
    f
}

/// Adds the compose text's `${NAME}` references to the root variables (see
/// `add_compose_refs`).
fn add_compose_refs_exec(env: &mut StrMap<String>, text: &Vec<char>, flat: &StrMap<String>)
    ensures
        final(env)@ == add_compose_refs(old(env)@, text@, 0, flat@),
{
    proof {
        reveal_strlit("@");
    }
    let ghost target = add_compose_refs(env@, text@, 0, flat@);
    let mut i: usize = 0;
    while i < text.len()
        invariant
            i <= text.len(),
            add_compose_refs(env@, text@, i as int, flat@) == target,
            target == add_compose_refs(old(env)@, text@, 0, flat@),
        decreases text.len() - i,
    {
        proof {
            reveal_strlit("@");
        }
        match ref_at_exec(text, i) {
            None => {
                return;
            },
            Some((st, e)) => {
                let expr = slice_of(text, st + 2, e);
                if !contains_exec(&expr, &lit("@")) {
                    let name = string_of(&expr);
                    if !env.contains_key(name.as_str()) {
                        match flat.get(name.as_str()) {
                            Some(v) => {
                                env.insert(name, v.clone());
                            },
                            None => {},
                        }
                    }
                }
                i = e + 1;
            },
        }
    }
}

impl ProjectBuilder {
    /// The root `.env` text (see `root_env_text`), and the expanded variable
    /// pool that service env files substitute from.
    pub fn root_env_content(
        services: &[ServiceBlock],
        env_files: &StrMap<EnvFile>,
        config_vars: &StrMap<ConfigValue>,
        compose_yaml: &str,
    ) -> (r: (String, StrMap<String>))
        ensures
            r.0@ == root_env_text(
                services@.map_values(|s: ServiceBlock| s@),
                env_files@,
                config_vars@,
                compose_yaml@,
            ),
            r.1@ == expand_rounds(
                flat_pool(services@.map_values(|s: ServiceBlock| s@), env_files@, config_vars@),
                10,
            ),
    {
        let flat = expand_rounds_exec(flat_pool_exec(services, env_files, config_vars), 10);
        let mut env: StrMap<String> = StrMap::new();
        insert_pairs_exec(&mut env, &config_pairs_exec(config_vars));
        add_compose_refs_exec(&mut env, &chars_of(compose_yaml), &flat);
        let mut lines: Vec<Vec<char>> = Vec::new();
        let mut i: usize = 0;
        while i < env.entries.len()
            invariant
                i <= env.entries.len(),
                views(lines@) == env@.map_values(|e: (Seq<char>, Seq<char>)| pair_line(e)).take(
                    i as int,
                ),
            decreases env.entries.len() - i,
        {
            let e = &env.entries[i];
            let mut t = chars_of_string(&e.key);
            append(&mut t, &lit("="));
            append(&mut t, &chars_of_string(&e.value));
            let ghost before = views(lines@);
            lines.push(t);
            assert(views(lines@) =~= before.push(pair_line((e.key@, e.value@))));
            assert(env@[i as int] == (e.key@, e.value@));
            assert(env@.map_values(|e: (Seq<char>, Seq<char>)| pair_line(e)).take(i as int + 1)
                =~= env@.map_values(|e: (Seq<char>, Seq<char>)| pair_line(e)).take(i as int).push(
                pair_line((e.key@, e.value@)),
            ));
            i = i + 1;
        }
        assert(env@.map_values(|e: (Seq<char>, Seq<char>)| pair_line(e)).take(
            env.entries.len() as int,
        ) =~= env@.map_values(|e: (Seq<char>, Seq<char>)| pair_line(e)));
        let sorted = crate::text::sort_strings(lines);
        (string_of(&crate::text::join_exec(&sorted, &lit("\n"))), flat)
    }
}

/// A value with the first `n` pool variables substituted for `${NAME}`.
pub open spec fn replace_flat(s: Seq<char>, flat: Seq<(Seq<char>, Seq<char>)>, n: int) -> Seq<char>
    decreases n,
{
    if n <= 0 || n > flat.len() {
        s
    } else {
        replace_all(replace_flat(s, flat, n - 1), var_placeholder(flat[n - 1].0), flat[n - 1].1)
    }
}

/// The lines of a variable with value `rv`: `NAME=rv`, or one line per alias.
pub open spec fn var_entries(k: Seq<char>, v: EnvVariableV, rv: Seq<char>) -> Seq<Seq<char>> {
    if v.aliases.len() == 0 {
        seq![pair_line((k, rv))]
    } else {
        v.aliases.map_values(|a: Seq<char>| pair_line((a, rv)))
    }
}

/// The lines a variable writes to a service env file: with aliases, one
/// `ALIAS=value` line per alias, in order (the key itself is not written);
/// without aliases, the one line `KEY=value`.
pub proof fn lemma_var_entries(k: Seq<char>, v: EnvVariableV, rv: Seq<char>)
    ensures
        v.aliases.len() == 0 ==> var_entries(k, v, rv) == seq![k + "="@ + rv],
        v.aliases.len() > 0 ==> var_entries(k, v, rv).len() == v.aliases.len() && forall|i: int|
            0 <= i < v.aliases.len() ==> #[trigger] var_entries(k, v, rv)[i] == v.aliases[i] + "="@ + rv,
{
}

/// The value a variable of a service env file gets: references resolved, then
/// the pool substituted.
pub open spec fn env_value(
    v: Seq<char>,
    fs: Seq<(Seq<char>, EnvFileV)>,
    cv: Seq<(Seq<char>, ConfigValueV)>,
    flat: Seq<(Seq<char>, Seq<char>)>,
) -> Seq<char> {
    replace_flat(template_text(v, fs, cv, TemplateMode::Full), flat, flat.len() as int)
}

/// The first `n` variables of a section: the plain lines, the secret lines,
/// and the warnings for references left unresolved.
pub open spec fn file_vars_fold(
    vars: Seq<(Seq<char>, EnvVariableV)>,
    n: int,
    fs: Seq<(Seq<char>, EnvFileV)>,
    cv: Seq<(Seq<char>, ConfigValueV)>,
    flat: Seq<(Seq<char>, Seq<char>)>,
    file: Seq<char>,
) -> (Seq<Seq<char>>, Seq<Seq<char>>, Seq<Seq<char>>)
    decreases n,
{
    if n <= 0 || n > vars.len() {
        (seq![], seq![], seq![])
    } else {
        let (ls, ss, ws) = file_vars_fold(vars, n - 1, fs, cv, flat, file);
        let (k, v) = vars[n - 1];
        let rv = env_value(v.value, fs, cv, flat);
        let w = ws + unresolved_from(rv, 0, "env file '"@ + file + "' key '"@ + k + "'"@);
        if v.secret {
            (ls, ss + var_entries(k, v, rv), w)
        } else {
            (ls + var_entries(k, v, rv), ss, w)
        }
    }
}

/// In the lines written for a section's variables, a plain (not secret)
/// variable with aliases gives an `ALIAS=value` line for each alias, and one
/// without aliases a `KEY=value` line, its value resolved; a secret variable
/// gives the same lines among the secret ones.
pub proof fn lemma_file_vars_lines(
    vars: Seq<(Seq<char>, EnvVariableV)>,
    n: int,
    fs: Seq<(Seq<char>, EnvFileV)>,
    cv: Seq<(Seq<char>, ConfigValueV)>,
    flat: Seq<(Seq<char>, Seq<char>)>,
    file: Seq<char>,
    j: int,
    name: Seq<char>,
)
    requires
        0 <= j < n <= vars.len(),
        (vars[j].1.aliases.len() == 0 && name == vars[j].0) || vars[j].1.aliases.contains(name),
    ensures
        ({
            let line = name + "="@ + env_value(vars[j].1.value, fs, cv, flat);
            let r = file_vars_fold(vars, n, fs, cv, flat, file);
            if vars[j].1.secret {
                r.1.contains(line)
            } else {
                r.0.contains(line)
            }
        }),
    decreases n,
{
    let line = name + "="@ + env_value(vars[j].1.value, fs, cv, flat);
    let (ls, ss, ws) = file_vars_fold(vars, n - 1, fs, cv, flat, file);
    if j < n - 1 {
        lemma_file_vars_lines(vars, n - 1, fs, cv, flat, file, j, name);
        let (k, v) = vars[n - 1];
        let rv = env_value(v.value, fs, cv, flat);
        let e = var_entries(k, v, rv);
        if vars[j].1.secret {
            let i = choose|i: int| 0 <= i < ss.len() && ss[i] == line;
            if v.secret {
                assert((ss + e)[i] == line);
            }
        } else {
            let i = choose|i: int| 0 <= i < ls.len() && ls[i] == line;
            if !v.secret {
                assert((ls + e)[i] == line);
            }
        }
    } else {
        let (k, v) = vars[j];
        let rv = env_value(v.value, fs, cv, flat);
        let e = var_entries(k, v, rv);
        lemma_var_entries(k, v, rv);
        let i = if v.aliases.len() == 0 {
            0
        } else {
            choose|i: int| 0 <= i < v.aliases.len() && v.aliases[i] == name
        };
        assert(e[i] == line);
        if v.secret {
            assert((ss + e)[ss.len() + i] == line);
        } else {
            assert((ls + e)[ls.len() + i] == line);
        }
    }
}

/// `{name}.{section.}env`.
pub open spec fn env_file_name(name: Seq<char>, section: Option<Seq<char>>) -> Seq<char> {
    name + "."@ + match section {
        Some(s) => s + "."@,
        None => seq![],
    } + "env"@
}

/// The env files of the first `n` file sources of a service: name and text
/// (its plain lines sorted), the secret lines, and the warnings.
pub open spec fn service_files_fold(
    name: Seq<char>,
    srcs: Seq<EnvSourceV>,
    n: int,
    fs: Seq<(Seq<char>, EnvFileV)>,
    cv: Seq<(Seq<char>, ConfigValueV)>,
    flat: Seq<(Seq<char>, Seq<char>)>,
) -> (Seq<(Seq<char>, Seq<char>)>, Seq<Seq<char>>, Seq<Seq<char>>)
    decreases n,
{
    if n <= 0 || n > srcs.len() {
        (seq![], seq![], seq![])
    } else {
        let (files, secs, ws) = service_files_fold(name, srcs, n - 1, fs, cv, flat);
        match srcs[n - 1] {
            EnvSourceV::File { file, section } => if file.len() == 0 {
                (files, secs, ws)
            } else {
                match env_lookup(fs, file) {
                    Some(f) => {
                        let vars = resolve_section(f, section, 0, fs);
                        let (ls, ss, w) = file_vars_fold(vars, vars.len() as int, fs, cv, flat, file);
                        (
                            files.push(
                                (
                                    env_file_name(name, section),
                                    crate::text::join(ls.sort_by(crate::text::lex_leq()), "\n"@),
                                ),
                            ),
                            secs + ss,
                            ws + w,
                        )
                    },
                    None => (files.push((env_file_name(name, section), seq![])), secs, ws),
                }
            },
            _ => (files, secs, ws),
        }
    }
}

/// The secret inline sources of a service as `NAME=value` lines.
pub open spec fn inline_secret_lines(srcs: Seq<EnvSourceV>) -> Seq<Seq<char>>
    decreases srcs.len(),
{
    if srcs.len() == 0 {
        seq![]
    } else {
        inline_secret_lines(srcs.drop_last()) + match srcs.last() {
            EnvSourceV::Inline { key, value, secret } => if secret {
                seq![pair_line((key, value))]
            } else {
                seq![]
            },
            _ => seq![],
        }
    }
}

/// The env files of a service (name and text): one per file source, then
/// `{name}.secrets.env` with every secret line once, sorted, when there are
/// secrets; and the warnings.
pub open spec fn service_env_files_spec(
    s: ServiceBlockV,
    fs: Seq<(Seq<char>, EnvFileV)>,
    cv: Seq<(Seq<char>, ConfigValueV)>,
    flat: Seq<(Seq<char>, Seq<char>)>,
) -> (Seq<(Seq<char>, Seq<char>)>, Seq<Seq<char>>) {
    let (files, secs, ws) = service_files_fold(
        s.name,
        s.env_from,
        s.env_from.len() as int,
        fs,
        cv,
        flat,
    );
    let all = inline_secret_lines(s.env_from) + secs;
    (
        if all.len() > 0 {
            files.push(
                (
                    s.name + ".secrets.env"@,
                    crate::text::join(
                        crate::codegen::compose::dedup_adjacent(all.sort_by(crate::text::lex_leq())),
                        "\n"@,
                    ),
                ),
            )
        } else {
            files
        },
        ws,
    )
}

/// The values of a resolved section resolve.
pub open spec fn values_resolve(vars: Seq<(Seq<char>, EnvVariableV)>, fs: Seq<(Seq<char>, EnvFileV)>) -> bool {
    forall|k: int| 0 <= k < vars.len() ==> resolves(#[trigger] vars[k].1.value, fs, TemplateMode::Full)
}

/// The values of the section a file source reads resolve.
pub open spec fn source_env_resolves(src: EnvSourceV, fs: Seq<(Seq<char>, EnvFileV)>) -> bool {
    match src {
        EnvSourceV::File { file, section } => match env_lookup(fs, file) {
            Some(f) => values_resolve(resolve_section(f, section, 0, fs), fs),
            None => true,
        },
        _ => true,
    }
}

/// The variable values of the env files a service reads resolve.
pub open spec fn service_env_resolves(s: ServiceBlockV, fs: Seq<(Seq<char>, EnvFileV)>) -> bool {
    forall|j: int| 0 <= j < s.env_from.len() ==> source_env_resolves(#[trigger] s.env_from[j], fs)
}

/// The domain: the config variable `DOMAIN` where it is a plain value, else
/// `example.com`.
pub open spec fn domain_spec(cv: Seq<(Seq<char>, ConfigValueV)>) -> Seq<char> {
    match str_get(cv, "DOMAIN"@) {
        Some(ConfigValueV::String(d)) => d,
        _ => "example.com"@,
    }
}

/// The cached hashes of the first `n` lines: `path<TAB>hash`, later lines
/// replacing earlier ones; lines without a tab or a hash are skipped.
pub open spec fn cache_fold(ls: Seq<Seq<char>>, n: int) -> Seq<(Seq<char>, u64)>
    decreases n,
{
    if n <= 0 || n > ls.len() {
        seq![]
    } else {
        let acc = cache_fold(ls, n - 1);
        match crate::text::split_once(ls[n - 1], '\t') {
            Some((path, h)) => match crate::text::parse_uint(h, 0xFFFF_FFFF_FFFF_FFFF) {
                Some(v) => str_insert(acc, path, v as u64),
                None => acc,
            },
            None => acc,
        }
    }
}

/// The changed, added and removed paths between the current hashes and the
/// cached ones (changed and added in the order of `cur`, removed in the order
/// of `old`).
pub open spec fn changed_paths(cur: Seq<(Seq<char>, u64)>, old: Seq<(Seq<char>, u64)>) -> Seq<Seq<char>>
    decreases cur.len(),
{
    if cur.len() == 0 {
        seq![]
    } else {
        let (p, h) = cur.last();
        changed_paths(cur.drop_last(), old) + match str_get(old, p) {
            Some(o) => if o != h {
                seq![p]
            } else {
                seq![]
            },
            None => seq![],
        }
    }
}

pub open spec fn added_paths(cur: Seq<(Seq<char>, u64)>, old: Seq<(Seq<char>, u64)>) -> Seq<Seq<char>>
    decreases cur.len(),
{
    if cur.len() == 0 {
        seq![]
    } else {
        let (p, h) = cur.last();
        added_paths(cur.drop_last(), old) + if str_get(old, p) is None {
            seq![p]
        } else {
            seq![]
        }
    }
}

pub open spec fn removed_paths(cur: Seq<(Seq<char>, u64)>, old: Seq<(Seq<char>, u64)>) -> Seq<Seq<char>>
    decreases old.len(),
{
    if old.len() == 0 {
        seq![]
    } else {
        let (p, h) = old.last();
        removed_paths(cur, old.drop_last()) + if str_get(cur, p) is None {
            seq![p]
        } else {
            seq![]
        }
    }
}

/// `path<TAB>hash`.
pub open spec fn cache_line(e: (Seq<char>, u64)) -> Seq<char> {
    e.0 + "\t"@ + crate::text::dec(e.1 as nat)
}

impl ProjectBuilder {
    /// The domain of the project (see `domain_spec`).
    pub fn domain(config_vars: &StrMap<ConfigValue>) -> (r: String)
        ensures
            r@ == domain_spec(config_vars@),
    {
        match config_vars.get("DOMAIN") {
            Some(ConfigValue::String(d)) => d.clone(),
            _ => "example.com".to_owned(),
        }
    }

    /// The first service named as the router container, or the message that
    /// there is none.
    pub fn router_service<'a>(services: &'a [ServiceBlock], router_container: &str) -> (r: Result<
        &'a ServiceBlock,
        String,
    >)
        ensures
            r matches Ok(s) ==> exists|i: int|
                0 <= i < services@.len() && services@[i] == *s && s.name@ == router_container@
                    && forall|j: int| 0 <= j < i ==> services@[j].name@ != router_container@,
            r matches Err(e) ==> (forall|j: int|
                0 <= j < services@.len() ==> services@[j].name@ != router_container@) && e@
                == "Router container '"@ + router_container@ + "' not found"@,
    {
        let mut i: usize = 0;
        while i < services.len()
            invariant
                i <= services.len(),
                forall|j: int| 0 <= j < i ==> services@[j].name@ != router_container@,
            decreases services.len() - i,
        {
            if crate::ast::string_eq_str(&services[i].name, router_container) {
                return Ok(&services[i]);
            }
            i = i + 1;
        }
        let mut m = lit("Router container '");
        append(&mut m, &chars_of(router_container));
        append(&mut m, &lit("' not found"));
        Err(string_of(&m))
    }

    /// Reads the hash cache (see `cache_fold`).
    pub fn parse_cache(text: &str) -> (r: StrMap<u64>)
        ensures
            r@ == cache_fold(lines(text@), lines(text@).len() as int),
    {
        let ls = lines_exec(&chars_of(text));
        let ghost lv = views(ls@);
        let mut m: StrMap<u64> = StrMap::new();
        let mut i: usize = 0;
        while i < ls.len()
            invariant
                i <= ls.len(),
                lv == views(ls@),
                m@ == cache_fold(lv, i as int),
            decreases ls.len() - i,
        {
            assert(lv[i as int] == ls@[i as int]@);
            match crate::text::split_once_exec(&ls[i], '\t') {
                Some((path, h)) => match crate::text::parse_uint_exec(&h, 0xFFFF_FFFF_FFFF_FFFF) {
                    Some(v) => {
                        m.insert(string_of(&path), v);
                    },
                    None => {},
                },
                None => {},
            }
            i = i + 1;
        }
        m
    }

    /// The changed, added and removed paths (see `changed_paths`,
    /// `added_paths`, `removed_paths`).
    pub fn cache_diff(current: &StrMap<u64>, old: &StrMap<u64>) -> (r: (
        Vec<String>,
        Vec<String>,
        Vec<String>,
    ))
        ensures
            svs(r.0@) == changed_paths(current@, old@),
            svs(r.1@) == added_paths(current@, old@),
            svs(r.2@) == removed_paths(current@, old@),
    {
        let (changed, added) = changed_added(current, old);
        (changed, added, removed_list(current, old))
    }

    /// The hash cache text: `path<TAB>hash` lines, sorted.
    pub fn cache_text(current: &StrMap<u64>) -> (r: String)
        ensures
            r@ == crate::text::join(
                current@.map_values(|e: (Seq<char>, u64)| cache_line(e)).sort_by(
                    crate::text::lex_leq(),
                ),
                "\n"@,
            ),
    {
        let ghost lv = current@.map_values(|e: (Seq<char>, u64)| cache_line(e));
        let mut lines: Vec<Vec<char>> = Vec::new();
        let mut i: usize = 0;
        while i < current.entries.len()
            invariant
                i <= current.entries.len(),
                lv == current@.map_values(|e: (Seq<char>, u64)| cache_line(e)),
                views(lines@) == lv.take(i as int),
            decreases current.entries.len() - i,
        {
            let e = &current.entries[i];
            let mut t = chars_of_string(&e.key);
            append(&mut t, &lit("\t"));
            append(&mut t, &crate::text::dec_exec(e.value));
            let ghost before = views(lines@);
            lines.push(t);
            assert(current@[i as int] == (e.key@, e.value));
            assert(views(lines@) =~= before.push(lv[i as int]));
            assert(lv.take(i as int + 1) =~= lv.take(i as int).push(lv[i as int]));
            i = i + 1;
        }
        assert(lv.take(current.entries.len() as int) =~= lv);
        let sorted = crate::text::sort_strings(lines);
        string_of(&crate::text::join_exec(&sorted, &lit("\n")))
    }
}

/// The changed and added paths.
fn changed_added(current: &StrMap<u64>, old: &StrMap<u64>) -> (r: (Vec<String>, Vec<String>))
    ensures
        svs(r.0@) == changed_paths(current@, old@),
        svs(r.1@) == added_paths(current@, old@),
{
    let ghost cv = current@;
    let ghost ov = old@;
    let mut changed: Vec<String> = Vec::new();
    let mut added: Vec<String> = Vec::new();
    let mut i: usize = 0;
    assert(svs(changed@) =~= changed_paths(cv.take(0), ov));
    assert(svs(added@) =~= added_paths(cv.take(0), ov));
    while i < current.entries.len()
        invariant
            i <= current.entries.len(),
            cv == current@,
            ov == old@,
            svs(changed@) == changed_paths(cv.take(i as int), ov),
            svs(added@) == added_paths(cv.take(i as int), ov),
        decreases current.entries.len() - i,
    {
        let e = &current.entries[i];
        assert(cv.take(i as int + 1).drop_last() =~= cv.take(i as int));
        assert(cv.take(i as int + 1).last() == (e.key@, e.value));
        let ghost gc = svs(changed@);
        let ghost ga = svs(added@);
        match old.get(e.key.as_str()) {
            Some(o) => {
                if *o != e.value {
                    changed.push(e.key.clone());
                    assert(svs(changed@) =~= gc + seq![e.key@]);
                } else {
                    assert(svs(changed@) =~= gc + Seq::<Seq<char>>::empty());
                }
                assert(svs(added@) =~= ga + Seq::<Seq<char>>::empty());
            },
            None => {
                added.push(e.key.clone());
                assert(svs(added@) =~= ga + seq![e.key@]);
                assert(svs(changed@) =~= gc + Seq::<Seq<char>>::empty());
            },
        }
        i = i + 1;
    }
    assert(cv.take(current.entries.len() as int) =~= cv);
    (changed, added)
}

/// The removed paths.
fn removed_list(current: &StrMap<u64>, old: &StrMap<u64>) -> (r: Vec<String>)
    ensures
        svs(r@) == removed_paths(current@, old@),
{
    let ghost cv = current@;
    let ghost ov = old@;
    let mut removed: Vec<String> = Vec::new();
    let mut k: usize = 0;
    assert(svs(removed@) =~= removed_paths(cv, ov.take(0)));
    while k < old.entries.len()
        invariant
            k <= old.entries.len(),
            cv == current@,
            ov == old@,
            svs(removed@) == removed_paths(cv, ov.take(k as int)),
        decreases old.entries.len() - k,
    {
        let e = &old.entries[k];
        assert(ov.take(k as int + 1).drop_last() =~= ov.take(k as int));
        assert(ov.take(k as int + 1).last() == (e.key@, e.value));
        let ghost gr = svs(removed@);
        if !current.contains_key(e.key.as_str()) {
            removed.push(e.key.clone());
            assert(svs(removed@) =~= gr + seq![e.key@]);
        } else {
            assert(svs(removed@) =~= gr + Seq::<Seq<char>>::empty());
        }
        k = k + 1;
    }
    assert(ov.take(old.entries.len() as int) =~= ov);
    removed
}

/// The blocks of the first `n` service files, or the first parse error.
pub open spec fn services_of(files: Seq<(Seq<char>, Seq<char>)>, n: int) -> Result<
    Seq<ServiceBlockV>,
    Seq<char>,
>
    decreases n,
{
    if n <= 0 || n > files.len() {
        Ok(seq![])
    } else {
        match services_of(files, n - 1) {
            Err(e) => Err(e),
            Ok(acc) => match crate::parse::service::parse_service_spec(files[n - 1].1, files[n - 1].0) {
                Ok(bs) => Ok(acc + bs),
                Err(e) => Err(e),
            },
        }
    }
}

/// The first `n` env files by name, or the first parse error.
pub open spec fn env_files_of(files: Seq<(Seq<char>, Seq<char>)>, n: int) -> Result<
    Seq<(Seq<char>, EnvFileV)>,
    Seq<char>,
>
    decreases n,
{
    if n <= 0 || n > files.len() {
        Ok(seq![])
    } else {
        match env_files_of(files, n - 1) {
            Err(e) => Err(e),
            Ok(acc) => match crate::parse::env::parse_env_spec(files[n - 1].1) {
                Some(f) => Ok(str_insert(acc, files[n - 1].0, f)),
                None => Err("Empty section header"@),
            },
        }
    }
}

/// A project from its texts: the config, the service files (name and text, in
/// order) and the env files (name and text); the first parse error, or the
/// validation errors' messages joined by `; `.
pub open spec fn project_of(
    config: Seq<char>,
    services: Seq<(Seq<char>, Seq<char>)>,
    envs: Seq<(Seq<char>, Seq<char>)>,
) -> Result<crate::ast::ProjectV, Seq<char>> {
    match services_of(services, services.len() as int) {
        Err(e) => Err(e),
        Ok(ss) => match env_files_of(envs, envs.len() as int) {
            Err(e) => Err(e),
            Ok(fs) => {
                let p = crate::ast::ProjectV {
                    config: crate::parse::config::parse_config_spec(config),
                    services: ss,
                    env_files: fs,
                };
                let errs = crate::validate::project_errors(p);
                if errs.len() == 0 {
                    Ok(p)
                } else {
                    Err(
                        crate::text::join(
                            errs.map_values(|e: crate::validate::ValidationErrorV| crate::validate::message_of(e)),
                            "; "@,
                        ),
                    )
                }
            },
        },
    }
}

/// When every service and env file parses but the project fails validation:
/// the validation messages joined by `; `.
pub open spec fn validation_failure(
    config: Seq<char>,
    services: Seq<(Seq<char>, Seq<char>)>,
    envs: Seq<(Seq<char>, Seq<char>)>,
) -> Option<Seq<char>> {
    match services_of(services, services.len() as int) {
        Ok(ss) => match env_files_of(envs, envs.len() as int) {
            Ok(fs) => {
                let errs = crate::validate::project_errors(
                    crate::ast::ProjectV {
                        config: crate::parse::config::parse_config_spec(config),
                        services: ss,
                        env_files: fs,
                    },
                );
                if errs.len() > 0 {
                    Some(
                        crate::text::join(
                            errs.map_values(|e: crate::validate::ValidationErrorV| crate::validate::message_of(e)),
                            "; "@,
                        ),
                    )
                } else {
                    None
                }
            },
            Err(_) => None,
        },
        Err(_) => None,
    }
}

/// Where validation is what fails, the build fails with the joined messages.
proof fn lemma_validation_failure(
    config: Seq<char>,
    services: Seq<(Seq<char>, Seq<char>)>,
    envs: Seq<(Seq<char>, Seq<char>)>,
)
    ensures
        validation_failure(config, services, envs) matches Some(m) ==> project_of(config, services, envs)
            == Err::<crate::ast::ProjectV, Seq<char>>(m),
{
}

/// A build whose service and env files all parse, but whose project fails
/// validation, fails with the validation messages joined by `; `.
pub proof fn lemma_build_reports_validation(
    config: Seq<char>,
    services: Seq<(Seq<char>, Seq<char>)>,
    envs: Seq<(Seq<char>, Seq<char>)>,
    ss: Seq<ServiceBlockV>,
    fs: Seq<(Seq<char>, EnvFileV)>,
)
    requires
        services_of(services, services.len() as int) == Ok::<Seq<ServiceBlockV>, Seq<char>>(ss),
        env_files_of(envs, envs.len() as int) == Ok::<Seq<(Seq<char>, EnvFileV)>, Seq<char>>(fs),
        crate::validate::project_errors(
            crate::ast::ProjectV {
                config: crate::parse::config::parse_config_spec(config),
                services: ss,
                env_files: fs,
            },
        ).len() > 0,
    ensures
        project_of(config, services, envs) == Err::<crate::ast::ProjectV, Seq<char>>(
            crate::text::join(
                crate::validate::project_errors(
                    crate::ast::ProjectV {
                        config: crate::parse::config::parse_config_spec(config),
                        services: ss,
                        env_files: fs,
                    },
                ).map_values(|e: crate::validate::ValidationErrorV| crate::validate::message_of(e)),
                "; "@,
            ),
        ),
{
}

/// The views of named texts.
pub open spec fn texts_view(v: Seq<(String, String)>) -> Seq<(Seq<char>, Seq<char>)> {
    v.map_values(|x: (String, String)| (x.0@, x.1@))
}

impl ProjectBuilder {
    /// Builds a project from its texts (see `project_of`): the config, the
    /// service files in the order given, and the env files.
    #[verifier::rlimit(40)]
    pub fn assemble_project(
        config: &str,
        service_files: &Vec<(String, String)>,
        env_texts: &Vec<(String, String)>,
    ) -> (r: Result<crate::ast::Project, String>)
        requires
            forall|i: int| 0 <= i < service_files@.len() ==> #[trigger] service_files@[i].1@.len() + 1 < usize::MAX,
            forall|i: int| 0 <= i < env_texts@.len() ==> crate::parse::env::env_input_ok(#[trigger] env_texts@[i].1@),
        ensures
            r matches Ok(p) ==> project_of(config@, texts_view(service_files@), texts_view(env_texts@))
                == Ok::<crate::ast::ProjectV, Seq<char>>(p@),
            r matches Err(e) ==> project_of(config@, texts_view(service_files@), texts_view(env_texts@))
                == Err::<crate::ast::ProjectV, Seq<char>>(e@),
            validation_failure(config@, texts_view(service_files@), texts_view(env_texts@)) matches Some(m)
                ==> (r matches Err(e) && e@ == m),
    {
        proof {
            lemma_validation_failure(config@, texts_view(service_files@), texts_view(env_texts@));
        }
        let ghost sf = texts_view(service_files@);
        let ghost ef = texts_view(env_texts@);
        let cfg = match crate::parse::config::parse_config_file(config) {
            Ok(c) => c,
            Err(e) => {
                return Err(e);
            },
        };
        let mut services: Vec<ServiceBlock> = Vec::new();
        let mut i: usize = 0;
        assert(services@.map_values(|s: ServiceBlock| s@) =~= Seq::<ServiceBlockV>::empty());
        while i < service_files.len()
            invariant
                i <= service_files.len(),
                sf == texts_view(service_files@),
                forall|i: int| 0 <= i < service_files@.len() ==> #[trigger] service_files@[i].1@.len() + 1 < usize::MAX,
                services_of(sf, i as int) == Ok::<Seq<ServiceBlockV>, Seq<char>>(
                    services@.map_values(|s: ServiceBlock| s@),
                ),
            decreases service_files.len() - i,
        {
            let (name, text) = &service_files[i];
            assert(sf[i as int] == (name@, text@));
            assert(service_files@[i as int].1@.len() + 1 < usize::MAX);
            match crate::parse::service::parse_service_file(text.as_str(), name.as_str()) {
                Ok(bs) => {
                    let ghost before = services@.map_values(|s: ServiceBlock| s@);
                    let ghost bv = bs@.map_values(|b: ServiceBlock| b@);
                    let mut bs = bs;
                    services.append(&mut bs);
                    assert(services@.map_values(|s: ServiceBlock| s@) =~= before + bv);
                },
                Err(e) => {
                    proof {
                        let k = i as int;
                        assert(services_of(sf, k + 1) == Err::<Seq<ServiceBlockV>, Seq<char>>(e@));
                        lemma_services_of_err(sf, k + 1, sf.len() as int);
                    }
                    return Err(e);
                },
            }
            i = i + 1;
        }
        let mut envs: StrMap<EnvFile> = StrMap::new();
        let mut k: usize = 0;
        while k < env_texts.len()
            invariant
                k <= env_texts.len(),
                ef == texts_view(env_texts@),
                sf == texts_view(service_files@),
                services_of(sf, sf.len() as int) == Ok::<Seq<ServiceBlockV>, Seq<char>>(
                    services@.map_values(|s: ServiceBlock| s@),
                ),
                forall|i: int| 0 <= i < env_texts@.len() ==> crate::parse::env::env_input_ok(#[trigger] env_texts@[i].1@),
                env_files_of(ef, k as int) == Ok::<Seq<(Seq<char>, EnvFileV)>, Seq<char>>(envs@),
            decreases env_texts.len() - k,
        {
            let (name, text) = &env_texts[k];
            assert(ef[k as int] == (name@, text@));
            assert(crate::parse::env::env_input_ok(env_texts@[k as int].1@));
            match crate::parse::env::parse_env_file(text.as_str()) {
                Ok(f) => {
                    envs.insert(name.clone(), f);
                },
                Err(e) => {
                    proof {
                        lemma_env_files_of_err(ef, k as int + 1, ef.len() as int);
                    }
                    return Err(e);
                },
            }
            k = k + 1;
        }
        let project = crate::ast::Project { config: cfg, services, env_files: envs };
        validated(project)
    }
}

/// The project if it has no validation error, else the errors' messages
/// joined by `; `.
fn validated(project: crate::ast::Project) -> (r: Result<crate::ast::Project, String>)
    ensures
        r matches Ok(p) ==> p@ == project@ && crate::validate::project_errors(project@).len() == 0,
        r matches Err(e) ==> crate::validate::project_errors(project@).len() > 0 && e@ == crate::text::join(
            crate::validate::project_errors(project@).map_values(
                |e: crate::validate::ValidationErrorV| crate::validate::message_of(e),
            ),
            "; "@,
        ),
{
    match crate::validate::validate(&project) {
        Ok(()) => Ok(project),
        Err(errors) => {
            let ghost ev = crate::validate::errors_view(errors@);
            let mut parts: Vec<Vec<char>> = Vec::new();
            let mut j: usize = 0;
            while j < errors.len()
                invariant
                    j <= errors.len(),
                    ev == crate::validate::errors_view(errors@),
                    views(parts@) == ev.map_values(
                        |e: crate::validate::ValidationErrorV| crate::validate::message_of(e),
                    ).take(j as int),
                decreases errors.len() - j,
            {
                let ghost before = views(parts@);
                let m = chars_of_string(&errors[j].to_message());
                parts.push(m);
                assert(views(parts@) =~= before.push(m@));
                assert(ev.map_values(
                    |e: crate::validate::ValidationErrorV| crate::validate::message_of(e),
                ).take(j as int + 1) =~= ev.map_values(
                    |e: crate::validate::ValidationErrorV| crate::validate::message_of(e),
                ).take(j as int).push(m@));
                j = j + 1;
            }
            assert(ev.map_values(
                |e: crate::validate::ValidationErrorV| crate::validate::message_of(e),
            ).take(j as int) =~= ev.map_values(
                |e: crate::validate::ValidationErrorV| crate::validate::message_of(e),
            ));
            Err(string_of(&crate::text::join_exec(&parts, &lit("; "))))
        },
    }
}

/// A parse error stays the outcome for every later prefix.
pub proof fn lemma_services_of_err(files: Seq<(Seq<char>, Seq<char>)>, n: int, m: int)
    requires
        0 < n <= m <= files.len(),
        services_of(files, n) is Err,
    ensures
        services_of(files, m) == services_of(files, n),
    decreases m - n,
{
    if m > n {
        lemma_services_of_err(files, n, m - 1);
    }
}

pub proof fn lemma_env_files_of_err(files: Seq<(Seq<char>, Seq<char>)>, n: int, m: int)
    requires
        0 < n <= m <= files.len(),
        env_files_of(files, n) is Err,
    ensures
        env_files_of(files, m) == env_files_of(files, n),
    decreases m - n,
{
    if m > n {
        lemma_env_files_of_err(files, n, m - 1);
    }
}

/// The references of `s` resolve within `n` steps.
pub open spec fn resolves_in(s: Seq<char>, fs: Seq<(Seq<char>, EnvFileV)>, mode: TemplateMode, n: nat) -> bool {
    scan(s, 0, fs, mode, n) is Some
}

/// The volume paths and raw strings of a service resolve within `n` steps each.
pub open spec fn service_resolves_in(s: ServiceBlockV, fs: Seq<(Seq<char>, EnvFileV)>, n: nat) -> bool {
    &&& forall|j: int|
        0 <= j < s.volumes.len() ==> resolves_in(#[trigger] s.volumes[j].host_path, fs, TemplateMode::Full, n)
    &&& forall|j: int|
        0 <= j < s.raw.len() ==> (#[trigger] s.raw[j].1 matches YamlV::Str(x) ==> resolves_in(
            x,
            fs,
            TemplateMode::Compose,
            n,
        ))
}

/// The values of a resolved section resolve within `n` steps each.
pub open spec fn values_resolve_in(vars: Seq<(Seq<char>, EnvVariableV)>, fs: Seq<(Seq<char>, EnvFileV)>, n: nat) -> bool {
    forall|k: int| 0 <= k < vars.len() ==> resolves_in(#[trigger] vars[k].1.value, fs, TemplateMode::Full, n)
}

/// The values of the section a file source reads resolve within `n` steps each.
pub open spec fn source_env_resolves_in(src: EnvSourceV, fs: Seq<(Seq<char>, EnvFileV)>, n: nat) -> bool {
    match src {
        EnvSourceV::File { file, section } => match env_lookup(fs, file) {
            Some(f) => values_resolve_in(resolve_section(f, section, 0, fs), fs, n),
            None => true,
        },
        _ => true,
    }
}

/// The variable values of the env files a service reads resolve within `n` steps each.
pub open spec fn service_env_resolves_in(s: ServiceBlockV, fs: Seq<(Seq<char>, EnvFileV)>, n: nat) -> bool {
    forall|j: int| 0 <= j < s.env_from.len() ==> source_env_resolves_in(#[trigger] s.env_from[j], fs, n)
}

/// What resolves within some number of steps resolves.
pub proof fn lemma_resolves_in(s: Seq<char>, fs: Seq<(Seq<char>, EnvFileV)>, mode: TemplateMode, n: nat)
    requires
        resolves_in(s, fs, mode, n),
    ensures
        resolves(s, fs, mode),
{
    assert(scan(s, 0, fs, mode, n) is Some);
}

/// Whether the references of `s` resolve within `max_steps` steps.
pub fn template_resolves_within(
    s: &str,
    env_files: &StrMap<EnvFile>,
    mode: TemplateMode,
    max_steps: u64,
) -> (r: bool)
    ensures
        r == resolves_in(s@, env_files@, mode, max_steps as nat),
        r ==> resolves(s@, env_files@, mode),
{
    let none: StrMap<ConfigValue> = StrMap::new();
    resolve_template_bounded(s, env_files, &none, mode, max_steps).is_some()
}

/// Whether the volume paths and raw strings of a service resolve within
/// `max_steps` steps each.
fn service_resolves_within(s: &ServiceBlock, env_files: &StrMap<EnvFile>, max_steps: u64) -> (r: bool)
    ensures
        r == service_resolves_in(s@, env_files@, max_steps as nat),
        r ==> service_resolves(s@, env_files@),
{
    let ghost n = max_steps as nat;
    let mut j: usize = 0;
    while j < s.volumes.len()
        invariant
            j <= s.volumes.len(),
            n == max_steps as nat,
            forall|k: int|
                0 <= k < j ==> resolves_in(#[trigger] s@.volumes[k].host_path, env_files@, TemplateMode::Full, n),
        decreases s.volumes.len() - j,
    {
        assert(s@.volumes[j as int] == s.volumes@[j as int]@);
        if !template_resolves_within(s.volumes[j].host_path.as_str(), env_files, TemplateMode::Full, max_steps) {
            assert(!resolves_in(s@.volumes[j as int].host_path, env_files@, TemplateMode::Full, n));
            return false;
        }
        j = j + 1;
    }
    let mut k: usize = 0;
    while k < s.raw.entries.len()
        invariant
            k <= s.raw.entries.len(),
            n == max_steps as nat,
            forall|m: int|
                0 <= m < s.volumes@.len() ==> resolves_in(#[trigger] s@.volumes[m].host_path, env_files@, TemplateMode::Full, n),
            forall|m: int|
                0 <= m < k ==> (#[trigger] s@.raw[m].1 matches YamlV::Str(x) ==> resolves_in(
                    x,
                    env_files@,
                    TemplateMode::Compose,
                    n,
                )),
        decreases s.raw.entries.len() - k,
    {
        let e = &s.raw.entries[k];
        assert(s@.raw[k as int] == (e.key@, e.value@));
        match &e.value {
            Yaml::Str(x) => {
                if !template_resolves_within(x.as_str(), env_files, TemplateMode::Compose, max_steps) {
                    assert(s@.raw[k as int].1 == YamlV::Str(x@));
                    return false;
                }
            },
            _ => {},
        }
        k = k + 1;
    }
    assert forall|m: int| 0 <= m < s@.volumes.len() implies resolves(
        #[trigger] s@.volumes[m].host_path,
        env_files@,
        TemplateMode::Full,
    ) by {
        lemma_resolves_in(s@.volumes[m].host_path, env_files@, TemplateMode::Full, n);
    }
    assert forall|m: int| 0 <= m < s@.raw.len() implies (#[trigger] s@.raw[m].1 matches YamlV::Str(x)
        ==> resolves(x, env_files@, TemplateMode::Compose)) by {
        if let YamlV::Str(x) = s@.raw[m].1 {
            lemma_resolves_in(x, env_files@, TemplateMode::Compose, n);
        }
    }
    true
}

impl ProjectBuilder {
    /// Whether the volume paths and raw strings of every service resolve
    /// within `max_steps` steps each (a `true` answer allows `resolve_services`).
    pub fn services_resolve_within(
        services: &[ServiceBlock],
        env_files: &StrMap<EnvFile>,
        max_steps: u64,
    ) -> (r: bool)
        ensures
            r == forall|i: int|
                0 <= i < services@.len() ==> service_resolves_in(#[trigger] services@[i]@, env_files@, max_steps as nat),
            r ==> forall|i: int|
                0 <= i < services@.len() ==> service_resolves(#[trigger] services@[i]@, env_files@),
    {
        let mut i: usize = 0;
        while i < services.len()
            invariant
                i <= services.len(),
                forall|k: int| 0 <= k < i ==> service_resolves_in(#[trigger] services@[k]@, env_files@, max_steps as nat),
                forall|k: int| 0 <= k < i ==> service_resolves(#[trigger] services@[k]@, env_files@),
            decreases services.len() - i,
        {
            if !service_resolves_within(&services[i], env_files, max_steps) {
                assert(!service_resolves_in(services@[i as int]@, env_files@, max_steps as nat));
                return false;
            }
            i = i + 1;
        }
        true
    }

    /// Whether the variable values of the env files a service reads resolve
    /// within `max_steps` steps each (a `true` answer allows `service_env_files`).
    #[verifier::rlimit(60)]
    pub fn service_env_resolves_within(
        service: &ServiceBlock,
        env_files: &StrMap<EnvFile>,
        max_steps: u64,
    ) -> (r: bool)
        ensures
            r == service_env_resolves_in(service@, env_files@, max_steps as nat),
            r ==> service_env_resolves(service@, env_files@),
    {
        let ghost sv = service@;
        let mut i: usize = 0;
        while i < service.env_from.len()
            invariant
                i <= service.env_from.len(),
                sv == service@,
                forall|j: int| 0 <= j < i ==> source_env_resolves_in(#[trigger] sv.env_from[j], env_files@, max_steps as nat),
                forall|j: int| 0 <= j < i ==> source_env_resolves(#[trigger] sv.env_from[j], env_files@),
            decreases service.env_from.len() - i,
        {
            assert(sv.env_from[i as int] == service.env_from@[i as int]@);
            if !source_env_resolves_within(&service.env_from[i], env_files, max_steps) {
                return false;
            }
            i = i + 1;
        }
        true
    }
}

/// Whether the values of the section a source reads resolve within
/// `max_steps` steps each.
#[verifier::rlimit(40)]
fn source_env_resolves_within(src: &EnvSource, env_files: &StrMap<EnvFile>, max_steps: u64) -> (r:
    bool)
    ensures
        r == source_env_resolves_in(src@, env_files@, max_steps as nat),
        r ==> source_env_resolves(src@, env_files@),
{
    match src {
        EnvSource::File { file, section } => {
            match ProjectBuilder::env_file_lookup(env_files, file.as_str()) {
                Some(f) => {
                    let vars = match section {
                        Some(x) => ProjectBuilder::resolve_env_section(f, Some(x.as_str()), 0, env_files),
                        None => ProjectBuilder::resolve_env_section(f, None, 0, env_files),
                    };
                    assert(vars@ == resolve_section(f@, opt_view(*section), 0, env_files@));
                    assert(env_lookup(env_files@, file@) == Some(f@));
                    let mut k: usize = 0;
                    while k < vars.entries.len()
                        invariant
                            k <= vars.entries.len(),
                            vars@ == resolve_section(f@, opt_view(*section), 0, env_files@),
                            env_lookup(env_files@, file@) == Some(f@),
                            src@ == (EnvSourceV::File { file: file@, section: opt_view(*section) }),
                            forall|m: int|
                                0 <= m < k ==> resolves_in(
                                    #[trigger] vars@[m].1.value,
                                    env_files@,
                                    TemplateMode::Full,
                                    max_steps as nat,
                                ),
                        decreases vars.entries.len() - k,
                    {
                        let e = &vars.entries[k];
                        assert(vars@[k as int].1 == e.value@);
                        if !template_resolves_within(
                            e.value.value.as_str(),
                            env_files,
                            TemplateMode::Full,
                            max_steps,
                        ) {
                            assert(!resolves_in(vars@[k as int].1.value, env_files@, TemplateMode::Full, max_steps as nat));
                            assert(!values_resolve_in(vars@, env_files@, max_steps as nat));
                            return false;
                        }
                        k = k + 1;
                    }
                    assert forall|m: int| 0 <= m < vars@.len() implies resolves(
                        #[trigger] vars@[m].1.value,
                        env_files@,
                        TemplateMode::Full,
                    ) by {
                        lemma_resolves_in(vars@[m].1.value, env_files@, TemplateMode::Full, max_steps as nat);
                    }
                    assert(values_resolve(vars@, env_files@));
                    true
                },
                None => true,
            }
        },
        _ => true,
    }
}

pub proof fn lemma_expand_entries_prefix(m: Seq<(YamlV, YamlV)>, x: (YamlV, YamlV), n: int)
    requires
        0 <= n <= m.len(),
    ensures
        expand_entries(m.push(x), n) == expand_entries(m, n),
    decreases n,
{
    if n > 0 {
        lemma_expand_entries_prefix(m, x, n - 1);
        assert(m.push(x)[n - 1] == m[n - 1]);
    }
}

/// A dotted key written last can be read back at its path, holding its
/// (expanded) value, wherever the path can be written.
pub proof fn lemma_expand_dotted_key(m: Seq<(YamlV, YamlV)>, k: Seq<char>, v: YamlV)
    requires
        contains(k, "."@),
        set_nested(YamlV::Mapping(expand_entries(m, m.len() as int)), k, expand(v)).1,
    ensures
        crate::yaml::get_nested(expand(YamlV::Mapping(m.push((YamlV::Str(k), v)))), k) == Some(
            expand(v),
        ),
{
    let m2 = m.push((YamlV::Str(k), v));
    lemma_expand_entries_prefix(m, (YamlV::Str(k), v), m.len() as int);
    assert(m2[m.len() as int] == (YamlV::Str(k), v));
    crate::yaml::lemma_set_then_get(YamlV::Mapping(expand_entries(m, m.len() as int)), k, expand(v));
}


/// A value with every pool variable substituted in pool order (see `replace_flat`).
fn replace_flat_exec(s: Vec<char>, flat: &StrMap<String>) -> (r: Vec<char>)
    ensures
        r@ == replace_flat(s@, flat@, flat@.len() as int),
{
    let ghost fv = flat@;
    let ghost s0 = s@;
    let mut v = s;
    let mut j: usize = 0;
    while j < flat.entries.len()
        invariant
            j <= flat.entries.len(),
            fv == flat@,
            v@ == replace_flat(s0, fv, j as int),
        decreases flat.entries.len() - j,
    {
        let e = &flat.entries[j];
        assert(fv[j as int] == (e.key@, e.value@));
        let ph = var_placeholder_exec(&e.key);
        v = replace_all_exec(&v, &ph, &chars_of_string(&e.value));
        j = j + 1;
    }
    v
}

/// Appends lines to a list of lines.
fn push_lines(a: &mut Vec<Vec<char>>, b: Vec<Vec<char>>)
    ensures
        views(final(a)@) == views(old(a)@) + views(b@),
{
    let ghost x = views(a@);
    let ghost y = views(b@);
    let mut b = b;
    a.append(&mut b);
    assert(views(a@) =~= x + y);
}

/// The lines of a variable with value `rv` (see `var_entries`).
fn var_entries_exec(k: &String, v: &EnvVariable, rv: &Vec<char>) -> (r: Vec<Vec<char>>)
    ensures
        views(r@) == var_entries(k@, v@, rv@),
{
    if v.aliases.len() == 0 {
        let mut t = chars_of_string(k);
        append(&mut t, &lit("="));
        append(&mut t, rv);
        let r = vec![t];
        assert(views(r@) =~= seq![pair_line((k@, rv@))]);
        r
    } else {
        let ghost al = v@.aliases;
        let mut r: Vec<Vec<char>> = Vec::new();
        let mut i: usize = 0;
        while i < v.aliases.len()
            invariant
                i <= v.aliases.len(),
                al == v@.aliases,
                views(r@) == al.take(i as int).map_values(|a: Seq<char>| pair_line((a, rv@))),
            decreases v.aliases.len() - i,
        {
            let mut t = chars_of_string(&v.aliases[i]);
            append(&mut t, &lit("="));
            append(&mut t, rv);
            let ghost before = views(r@);
            r.push(t);
            assert(al[i as int] == v.aliases@[i as int]@);
            assert(views(r@) =~= before.push(pair_line((al[i as int], rv@))));
            assert(al.take(i as int + 1).map_values(|a: Seq<char>| pair_line((a, rv@)))
                =~= al.take(i as int).map_values(|a: Seq<char>| pair_line((a, rv@))).push(
                pair_line((al[i as int], rv@)),
            ));
            i = i + 1;
        }
        assert(al.take(v.aliases.len() as int) =~= al);
        r
    }
}

/// The lines, secret lines and warnings of the variables of a resolved section
/// (see `file_vars_fold`).
#[verifier::rlimit(40)]
fn file_vars_exec(
    vars: &StrMap<EnvVariable>,
    env_files: &StrMap<EnvFile>,
    config_vars: &StrMap<ConfigValue>,
    flat: &StrMap<String>,
    file: &String,
) -> (r: (Vec<Vec<char>>, Vec<Vec<char>>, Vec<String>))
    requires
        values_resolve(vars@, env_files@),
    ensures
        (views(r.0@), views(r.1@), svs(r.2@)) == file_vars_fold(
            vars@,
            vars@.len() as int,
            env_files@,
            config_vars@,
            flat@,
            file@,
        ),
{
    let ghost vv = vars@;
    let mut ls: Vec<Vec<char>> = Vec::new();
    let mut ss: Vec<Vec<char>> = Vec::new();
    let mut ws: Vec<String> = Vec::new();
    let mut k: usize = 0;
    while k < vars.entries.len()
        invariant
            k <= vars.entries.len(),
            vv == vars@,
            values_resolve(vv, env_files@),
            (views(ls@), views(ss@), svs(ws@)) == file_vars_fold(
                vv,
                k as int,
                env_files@,
                config_vars@,
                flat@,
                file@,
            ),
        decreases vars.entries.len() - k,
    {
        let e = &vars.entries[k];
        assert(vv[k as int] == (e.key@, e.value@));
        assert(resolves(vv[k as int].1.value, env_files@, TemplateMode::Full));
        let t = resolve_template(e.value.value.as_str(), env_files, config_vars, TemplateMode::Full);
        let rv = replace_flat_exec(chars_of_string(&t), flat);
        let mut loc = lit("env file '");
        append(&mut loc, &chars_of_string(file));
        append(&mut loc, &lit("' key '"));
        append(&mut loc, &chars_of_string(&e.key));
        append(&mut loc, &lit("'"));
        let rs = string_of(&rv);
        let locs = string_of(&loc);
        ProjectBuilder::check_unresolved(rs.as_str(), locs.as_str(), &mut ws);
        let entries = var_entries_exec(&e.key, &e.value, &rv);
        if e.value.secret {
            push_lines(&mut ss, entries);
        } else {
            push_lines(&mut ls, entries);
        }
        k = k + 1;
    }
    (ls, ss, ws)
}

/// `{name}.{section.}env` (see `env_file_name`).
fn env_file_name_exec(name: &String, section: &Option<String>) -> (r: String)
    ensures
        r@ == env_file_name(name@, opt_view(*section)),
{
    let mut t = chars_of_string(name);
    append(&mut t, &lit("."));
    match section {
        Some(s) => {
            append(&mut t, &chars_of_string(s));
            append(&mut t, &lit("."));
        },
        None => {},
    }
    append(&mut t, &lit("env"));
    string_of(&t)
}

/// The secret inline sources as `NAME=value` lines (see `inline_secret_lines`).
fn inline_secret_lines_exec(srcs: &Vec<EnvSource>) -> (r: Vec<Vec<char>>)
    ensures
        views(r@) == inline_secret_lines(srcs@.map_values(|e: EnvSource| e@)),
{
    let ghost sv = srcs@.map_values(|e: EnvSource| e@);
    let mut r: Vec<Vec<char>> = Vec::new();
    let mut i: usize = 0;
    while i < srcs.len()
        invariant
            i <= srcs.len(),
            sv == srcs@.map_values(|e: EnvSource| e@),
            views(r@) == inline_secret_lines(sv.take(i as int)),
        decreases srcs.len() - i,
    {
        assert(sv.take(i as int + 1).drop_last() =~= sv.take(i as int));
        assert(sv.take(i as int + 1).last() == srcs@[i as int]@);
        match &srcs[i] {
            EnvSource::Inline { key, value, secret } => {
                if *secret {
                    let mut t = chars_of_string(key);
                    append(&mut t, &lit("="));
                    append(&mut t, &chars_of_string(value));
                    let ghost before = views(r@);
                    r.push(t);
                    assert(views(r@) =~= before + seq![pair_line((key@, value@))]);
                } else {
                    assert(views(r@) =~= views(r@) + Seq::<Seq<char>>::empty());
                }
            },
            _ => {
                assert(views(r@) =~= views(r@) + Seq::<Seq<char>>::empty());
            },
        }
        i = i + 1;
    }
    assert(sv.take(srcs.len() as int) =~= sv);
    r
}

/// Lines joined by newlines after sorting.
fn sorted_text(ls: Vec<Vec<char>>) -> (r: String)
    ensures
        r@ == crate::text::join(views(ls@).sort_by(crate::text::lex_leq()), "\n"@),
{
    let sorted = crate::text::sort_strings(ls);
    string_of(&crate::text::join_exec(&sorted, &lit("\n")))
}

/// The text of the secret lines: sorted, each once, joined by newlines.
fn secrets_text(all: Vec<Vec<char>>) -> (r: String)
    ensures
        r@ == crate::text::join(
            crate::codegen::compose::dedup_adjacent(views(all@).sort_by(crate::text::lex_leq())),
            "\n"@,
        ),
{
    let sorted = crate::text::sort_strings(all);
    let d = crate::codegen::compose::dedup_adjacent_exec(&sorted);
    let ghost dv = crate::ast::strs_view(d@);
    let mut parts: Vec<Vec<char>> = Vec::new();
    let mut i: usize = 0;
    while i < d.len()
        invariant
            i <= d.len(),
            dv == crate::ast::strs_view(d@),
            views(parts@) == dv.take(i as int),
        decreases d.len() - i,
    {
        let ghost before = views(parts@);
        parts.push(chars_of_string(&d[i]));
        assert(views(parts@) =~= before.push(dv[i as int]));
        assert(dv.take(i as int + 1) =~= dv.take(i as int).push(dv[i as int]));
        i = i + 1;
    }
    assert(dv.take(d.len() as int) =~= dv);
    string_of(&crate::text::join_exec(&parts, &lit("\n")))
}

impl ProjectBuilder {
    /// The env files of a service, as (file name, text) pairs in the order they
    /// are written, and the warnings for references left unresolved (see
    /// `service_env_files_spec`). `flat` is the expanded pool that
    /// `root_env_content` returns.
    #[verifier::rlimit(60)]
    pub fn service_env_files(
        service: &ServiceBlock,
        env_files: &StrMap<EnvFile>,
        config_vars: &StrMap<ConfigValue>,
        flat: &StrMap<String>,
    ) -> (r: (Vec<(String, String)>, Vec<String>))
        requires
            service_env_resolves(service@, env_files@),
        ensures
            r.0@.map_values(|p: (String, String)| (p.0@, p.1@)) == service_env_files_spec(
                service@,
                env_files@,
                config_vars@,
                flat@,
            ).0,
            svs(r.1@) == service_env_files_spec(service@, env_files@, config_vars@, flat@).1,
    {
        let ghost sv = service@;
        let ghost fs = env_files@;
        let mut files: Vec<(String, String)> = Vec::new();
        let mut secs: Vec<Vec<char>> = Vec::new();
        let mut ws: Vec<String> = Vec::new();
        let mut i: usize = 0;
        while i < service.env_from.len()
            invariant
                i <= service.env_from.len(),
                sv == service@,
                fs == env_files@,
                service_env_resolves(sv, fs),
                (files@.map_values(|p: (String, String)| (p.0@, p.1@)), views(secs@), svs(ws@))
                    == service_files_fold(sv.name, sv.env_from, i as int, fs, config_vars@, flat@),
            decreases service.env_from.len() - i,
        {
            let ghost fv0 = files@.map_values(|p: (String, String)| (p.0@, p.1@));
            assert(sv.env_from[i as int] == service.env_from@[i as int]@);
            assert(source_env_resolves(sv.env_from[i as int], fs));
            match &service.env_from[i] {
                EnvSource::File { file, section } => {
                    if chars_of_string(file).len() != 0 {
                        let name = env_file_name_exec(&service.name, section);
                        match ProjectBuilder::env_file_lookup(env_files, file.as_str()) {
                            Some(f) => {
                                let vars = match section {
                                    Some(x) => ProjectBuilder::resolve_env_section(f, Some(x.as_str()), 0, env_files),
                                    None => ProjectBuilder::resolve_env_section(f, None, 0, env_files),
                                };
                                let (ls, ss, w) = file_vars_exec(&vars, env_files, config_vars, flat, file);
                                let text = sorted_text(ls);
                                let ghost tv = text@;
                                files.push((name, text));
                                assert(files@.map_values(|p: (String, String)| (p.0@, p.1@)) =~= fv0.push(
                                    (env_file_name(sv.name, opt_view(*section)), tv),
                                ));
                                push_lines(&mut secs, ss);
                                append_strs(&mut ws, w);
                            },
                            None => {
                                files.push((name, String::new()));
                                assert(files@.map_values(|p: (String, String)| (p.0@, p.1@)) =~= fv0.push(
                                    (env_file_name(sv.name, opt_view(*section)), seq![]),
                                ));
                            },
                        }
                    }
                },
                _ => {},
            }
            i = i + 1;
        }
        assert(sv.env_from.len() == service.env_from.len());
        let mut all = inline_secret_lines_exec(&service.env_from);
        push_lines(&mut all, secs);
        if all.len() > 0 {
            let ghost fv0 = files@.map_values(|p: (String, String)| (p.0@, p.1@));
            let mut sn = chars_of_string(&service.name);
            append(&mut sn, &lit(".secrets.env"));
            let text = secrets_text(all);
            let ghost tv = text@;
            files.push((string_of(&sn), text));
            assert(files@.map_values(|p: (String, String)| (p.0@, p.1@)) =~= fv0.push(
                (sv.name + ".secrets.env"@, tv),
            ));
        }
        (files, ws)
    }
}

/// The own entries after index `i` neither set `k` nor name it as an alias.
pub open spec fn later_leave(vars: Seq<(Seq<char>, EnvVariableV)>, i: int, n: int, k: Seq<char>) -> bool {
    forall|j: int|
        i < j < n ==> (#[trigger] vars[j]).0 != k && ((vars[j].1.value.len() == 0
            && vars[j].1.aliases.len() > 0) ==> !vars[j].1.aliases.contains(k))
}

/// Setting aliases other than `k` leaves `k` as it was.
proof fn lemma_alias_inserts_other(
    m: Seq<(Seq<char>, EnvVariableV)>,
    aliases: Seq<Seq<char>>,
    n: int,
    value: Seq<char>,
    secret: bool,
    k: Seq<char>,
)
    requires
        n <= aliases.len(),
        !aliases.contains(k),
    ensures
        str_get(alias_inserts(m, aliases, n, value, secret), k) == str_get(m, k),
    decreases n,
{
    if n > 0 {
        lemma_alias_inserts_other(m, aliases, n - 1, value, secret, k);
        assert(aliases[n - 1] != k);
        crate::ast::lemma_str_get_insert_other(
            alias_inserts(m, aliases, n - 1, value, secret),
            aliases[n - 1],
            EnvVariableV { value, secret, aliases: seq![] },
            k,
        );
    }
}

proof fn lemma_alias_inserts_unique(
    m: Seq<(Seq<char>, EnvVariableV)>,
    aliases: Seq<Seq<char>>,
    n: int,
    value: Seq<char>,
    secret: bool,
)
    requires
        crate::ast::str_keys_unique(m),
    ensures
        crate::ast::str_keys_unique(alias_inserts(m, aliases, n, value, secret)),
    decreases n,
{
    if 0 < n <= aliases.len() {
        lemma_alias_inserts_unique(m, aliases, n - 1, value, secret);
        crate::ast::lemma_str_insert_unique(
            alias_inserts(m, aliases, n - 1, value, secret),
            aliases[n - 1],
            EnvVariableV { value, secret, aliases: seq![] },
        );
    }
}

proof fn lemma_own_fold_keeps(
    m: Seq<(Seq<char>, EnvVariableV)>,
    vars: Seq<(Seq<char>, EnvVariableV)>,
    n: int,
    i: int,
    k: Seq<char>,
    v: EnvVariableV,
)
    requires
        0 <= i < n <= vars.len(),
        vars[i] == (k, v),
        !(v.value.len() == 0 && v.aliases.len() > 0),
        later_leave(vars, i, n, k),
    ensures
        str_get(own_fold(m, vars, n), k) == Some(v),
    decreases n,
{
    if n == i + 1 {
        crate::ast::lemma_str_get_insert(own_fold(m, vars, i), k, v);
    } else {
        lemma_own_fold_keeps(m, vars, n - 1, i, k, v);
        let r = own_fold(m, vars, n - 1);
        let (k2, v2) = vars[n - 1];
        assert(k2 != k);
        if v2.value.len() == 0 && v2.aliases.len() > 0 {
            match str_get(r, k2) {
                Some(p) => {
                    lemma_alias_inserts_other(r, v2.aliases, v2.aliases.len() as int, p.value, p.secret, k);
                },
                None => {},
            }
        } else {
            crate::ast::lemma_str_get_insert_other(r, k2, v2, k);
        }
    }
}

/// A section's own variable overrides whatever its `extends` chain gives:
/// where no later own line sets or renames the name, the resolved section
/// holds the section's own value for it.
pub proof fn lemma_own_overrides(
    f: EnvFileV,
    name: Option<Seq<char>>,
    depth: nat,
    i: int,
    fs: Seq<(Seq<char>, EnvFileV)>,
)
    requires
        depth <= max_depth(),
        (match name {
            Some(n) => str_get(f.sections, n),
            None => Some(f.root_section),
        }) is Some,
        ({
            let s = match name {
                Some(n) => str_get(f.sections, n),
                None => Some(f.root_section),
            }.unwrap();
            &&& 0 <= i < s.variables.len()
            &&& !(s.variables[i].1.value.len() == 0 && s.variables[i].1.aliases.len() > 0)
            &&& later_leave(s.variables, i, s.variables.len() as int, s.variables[i].0)
        }),
    ensures
        ({
            let s = match name {
                Some(n) => str_get(f.sections, n),
                None => Some(f.root_section),
            }.unwrap();
            str_get(resolve_section(f, name, depth, fs), s.variables[i].0) == Some(s.variables[i].1)
        }),
{
    let s = match name {
        Some(n) => str_get(f.sections, n),
        None => Some(f.root_section),
    }.unwrap();
    let parents = parents_fold(f, s.extends, s.extends.len() as int, depth, fs);
    assert(resolve_section(f, name, depth, fs) == own_fold(parents, s.variables, s.variables.len() as int));
    lemma_own_fold_keeps(parents, s.variables, s.variables.len() as int, i, s.variables[i].0, s.variables[i].1);
}

proof fn lemma_changed_added_empty(cur: Seq<(Seq<char>, u64)>, old: Seq<(Seq<char>, u64)>)
    ensures
        (changed_paths(cur, old).len() == 0 && added_paths(cur, old).len() == 0) <==> forall|i: int|
            0 <= i < cur.len() ==> str_get(old, (#[trigger] cur[i]).0) == Some(cur[i].1),
    decreases cur.len(),
{
    if cur.len() > 0 {
        let d = cur.drop_last();
        lemma_changed_added_empty(d, old);
        assert forall|i: int| 0 <= i < d.len() implies #[trigger] d[i] == cur[i] by {}
        let (p, h) = cur.last();
        assert(cur.last() == cur[cur.len() - 1]);
        if (forall|i: int| 0 <= i < cur.len() ==> str_get(old, (#[trigger] cur[i]).0) == Some(cur[i].1)) {
            assert(str_get(old, cur[cur.len() - 1].0) == Some(cur[cur.len() - 1].1));
            assert forall|i: int| 0 <= i < d.len() implies str_get(old, (#[trigger] d[i]).0) == Some(d[i].1) by {
                assert(d[i] == cur[i]);
            }
        }
        if changed_paths(cur, old).len() == 0 && added_paths(cur, old).len() == 0 {
            assert(changed_paths(d, old).len() == 0);
            assert(added_paths(d, old).len() == 0);
            assert(str_get(old, p) == Some(h));
            assert forall|i: int| 0 <= i < cur.len() implies str_get(old, (#[trigger] cur[i]).0) == Some(cur[i].1) by {
                if i < d.len() {
                    assert(d[i] == cur[i]);
                }
            }
        }
    }
}

proof fn lemma_removed_empty(cur: Seq<(Seq<char>, u64)>, old: Seq<(Seq<char>, u64)>)
    ensures
        removed_paths(cur, old).len() == 0 <==> forall|j: int|
            0 <= j < old.len() ==> str_get(cur, (#[trigger] old[j]).0) is Some,
    decreases old.len(),
{
    if old.len() > 0 {
        let d = old.drop_last();
        lemma_removed_empty(cur, d);
        assert(old.last() == old[old.len() - 1]);
        if (forall|j: int| 0 <= j < old.len() ==> str_get(cur, (#[trigger] old[j]).0) is Some) {
            assert(str_get(cur, old[old.len() - 1].0) is Some);
            assert forall|j: int| 0 <= j < d.len() implies str_get(cur, (#[trigger] d[j]).0) is Some by {
                assert(d[j] == old[j]);
            }
        }
        if removed_paths(cur, old).len() == 0 {
            assert(removed_paths(cur, d).len() == 0);
            assert forall|j: int| 0 <= j < old.len() implies str_get(cur, (#[trigger] old[j]).0) is Some by {
                if j < d.len() {
                    assert(d[j] == old[j]);
                }
            }
        }
    }
}

/// Regeneration is skipped exactly when nothing changed: the cache diff
/// reports no changed, added or removed file if and only if every current file
/// has its hash in the cache and every cached file is still present.
pub proof fn lemma_cache_unchanged(cur: Seq<(Seq<char>, u64)>, old: Seq<(Seq<char>, u64)>)
    ensures
        (changed_paths(cur, old).len() == 0 && added_paths(cur, old).len() == 0
            && removed_paths(cur, old).len() == 0) <==> ((forall|i: int|
            0 <= i < cur.len() ==> str_get(old, (#[trigger] cur[i]).0) == Some(cur[i].1)) && (forall|j: int|
            0 <= j < old.len() ==> str_get(cur, (#[trigger] old[j]).0) is Some)),
{
    lemma_changed_added_empty(cur, old);
    lemma_removed_empty(cur, old);
}

/// The network-config file a service adds to the dynamic configuration: its
/// own, except for the router container, whose file feeds the static
/// configuration instead.
pub fn dynamic_network_config<'a>(service: &'a ServiceBlock, router_container: &str) -> (r: Option<
    &'a String,
>)
    ensures
        r matches Some(p) ==> service@.name != router_container@ && service@.network_config == Some(p@),
        r is None ==> service@.name == router_container@ || service@.network_config is None,
{
    if string_eq_str(&service.name, router_container) {
        None
    } else {
        match &service.network_config {
            Some(p) => Some(p),
            None => None,
        }
    }
}

/// The extension of a file name as `Path::extension` reads it: the text after
/// the last `.`, unless that `.` starts the name; none without a `.`.
pub open spec fn extension_of(name: Seq<char>) -> Option<Seq<char>> {
    match rfind_char(name, '.') {
        Some(i) => if i == 0 {
            None
        } else {
            Some(name.subrange(i + 1, name.len() as int))
        },
        None => None,
    }
}

/// The file names of a folder that the cache tracks: those with extension
/// `ext`, in `str` order.
pub open spec fn tracked_names(names: Seq<Seq<char>>, ext: Seq<char>) -> Seq<Seq<char>> {
    names.filter(|n: Seq<char>| extension_of(n) == Some(ext)).sort_by(lex_leq())
}

/// Whether a file name has the extension `ext` (see `extension_of`).
pub fn has_extension(name: &str, ext: &str) -> (r: bool)
    ensures
        r == (extension_of(name@) == Some(ext@)),
{
    let v = chars_of(name);
    match rfind_char_exec(&v, '.') {
        Some(i) => {
            if i == 0 {
                false
            } else {
                let tail = slice_of(&v, i + 1, v.len());
                crate::text::eq_chars(&tail, &chars_of(ext))
            }
        },
        None => false,
    }
}

/// The file names of a folder that the cache tracks (see `tracked_names`).
pub fn tracked_files(names: &Vec<String>, ext: &str) -> (r: Vec<String>)
    ensures
        svs(r@) == tracked_names(svs(names@), ext@),
{
    let ghost ns = svs(names@);
    let ghost pred = |n: Seq<char>| extension_of(n) == Some(ext@);
    let mut kept: Vec<Vec<char>> = Vec::new();
    let mut i: usize = 0;
    while i < names.len()
        invariant
            i <= names.len(),
            ns == svs(names@),
            pred == (|n: Seq<char>| extension_of(n) == Some(ext@)),
            views(kept@) == ns.take(i as int).filter(pred),
        decreases names.len() - i,
    {
        assert(ns.take(i as int + 1).drop_last() =~= ns.take(i as int));
        assert(ns.take(i as int + 1).last() == names@[i as int]@);
        let ghost before = views(kept@);
        let ghost x = names@[i as int]@;
        let ghost t = ns.take(i as int + 1);
        assert(t.filter(pred) == (if pred(t.last()) {
            t.drop_last().filter(pred).push(t.last())
        } else {
            t.drop_last().filter(pred)
        })) by {
            reveal(Seq::filter);
        }
        if has_extension(names[i].as_str(), ext) {
            assert(pred(x));
            kept.push(chars_of_string(&names[i]));
            assert(views(kept@) =~= before.push(x));
        } else {
            assert(!pred(x));
        }
        i = i + 1;
    }
    assert(ns.take(names.len() as int) =~= ns);
    let sorted = crate::text::sort_strings(kept);
    let mut out: Vec<String> = Vec::new();
    let mut j: usize = 0;
    while j < sorted.len()
        invariant
            j <= sorted.len(),
            svs(out@) == views(sorted@).take(j as int),
        decreases sorted.len() - j,
    {
        let ghost before = svs(out@);
        out.push(string_of(&sorted[j]));
        assert(svs(out@) =~= before.push(views(sorted@)[j as int]));
        assert(views(sorted@).take(j as int + 1) =~= views(sorted@).take(j as int).push(views(sorted@)[j as int]));
        j = j + 1;
    }
    assert(views(sorted@).take(sorted.len() as int) =~= views(sorted@));
    out
}

/// The input folders whose files the cache tracks, each with the extension of
/// those files: the service files (`dyard`), the env files (`env`) and the
/// network files (`yml`).
pub fn tracked_folders(config: &crate::ast::ConfigFile) -> (r: Vec<(String, String)>)
    ensures
        r@.len() == 3,
        r@[0].0@ == config@.input_containers && r@[0].1@ == "dyard"@,
        r@[1].0@ == config@.input_env && r@[1].1@ == "env"@,
        r@[2].0@ == config@.input_network && r@[2].1@ == "yml"@,
{
    let mut r: Vec<(String, String)> = Vec::new();
    r.push((config.input.containers.clone(), string_of(&lit("dyard"))));
    r.push((config.input.env.clone(), string_of(&lit("env"))));
    r.push((config.input.network.clone(), string_of(&lit("yml"))));
    r
}

/// A file of the network directory that is copied into `conf.d`: `_*.yml`.
pub fn is_network_template(file_name: &str) -> (r: bool)
    ensures
        r == (file_name@.len() > 0 && file_name@[0] == '_' && ends_with(file_name@, ".yml"@)),
{
    let v = chars_of(file_name);
    v.len() > 0 && v[0] == '_' && ends_with_exec(&v, &lit(".yml"))
}

/// Whether the `output.env` setting names the root `.env` file itself (the
/// service env files then go to an `env` folder beside it) rather than the
/// folder of the service env files.
pub fn env_setting_is_file(output_env: &str) -> (r: bool)
    ensures
        r == ends_with(output_env@, ".env"@),
{
    ends_with_exec(&chars_of(output_env), &lit(".env"))
}

proof fn lemma_insert_all_unique(m: Seq<(Seq<char>, EnvVariableV)>, es: Seq<(Seq<char>, EnvVariableV)>)
    requires
        crate::ast::str_keys_unique(m),
    ensures
        crate::ast::str_keys_unique(str_insert_all(m, es)),
    decreases es.len(),
{
    if es.len() > 0 {
        lemma_insert_all_unique(m, es.drop_last());
        crate::ast::lemma_str_insert_unique(str_insert_all(m, es.drop_last()), es.last().0, es.last().1);
    }
}

/// Inserting the entries of a map with unique keys: a key of the map reads its
/// value; another key reads what it read before.
#[verifier::spinoff_prover]
#[verifier::rlimit(40)]
proof fn lemma_insert_all_get(m: Seq<(Seq<char>, EnvVariableV)>, es: Seq<(Seq<char>, EnvVariableV)>, k: Seq<char>)
    requires
        crate::ast::str_keys_unique(es),
    ensures
        str_get(str_insert_all(m, es), k) == match str_get(es, k) {
            Some(v) => Some(v),
            None => str_get(m, k),
        },
    decreases es.len(),
{
    crate::ast::lemma_str_key_pos_props(es, k);
    if es.len() > 0 {
        let d = es.drop_last();
        assert(crate::ast::str_keys_unique(d)) by {
            assert forall|i: int, j: int| 0 <= i < j < d.len() implies (#[trigger] d[i]).0 != (#[trigger] d[j]).0 by {
                assert(d[i] == es[i]);
                assert(d[j] == es[j]);
            }
        }
        lemma_insert_all_get(m, d, k);
        crate::ast::lemma_str_key_pos_props(d, k);
        let r = str_insert_all(m, d);
        let (lk, lv) = es.last();
        assert(es.last() == es[es.len() - 1]);
        if lk == k {
            crate::ast::lemma_str_get_insert(r, k, lv);
            crate::ast::lemma_str_get_unique(es, es.len() - 1);
        } else {
            crate::ast::lemma_str_get_insert_other(r, lk, lv, k);
            match crate::ast::str_key_pos(es, k) {
                Some(i) => {
                    assert(i < es.len() - 1);
                    assert(d[i] == es[i]);
                    assert forall|j: int| 0 <= j < i implies d[j].0 != k by {
                        assert(d[j] == es[j]);
                    }
                    crate::ast::lemma_str_key_pos(d, k, i);
                },
                None => {
                    assert forall|j: int| 0 <= j < d.len() implies d[j].0 != k by {
                        assert(d[j] == es[j]);
                    }
                    crate::ast::lemma_str_key_pos_none(d, k);
                },
            }
        }
    }
}

proof fn lemma_own_fold_unique(m: Seq<(Seq<char>, EnvVariableV)>, vars: Seq<(Seq<char>, EnvVariableV)>, n: int)
    requires
        crate::ast::str_keys_unique(m),
    ensures
        crate::ast::str_keys_unique(own_fold(m, vars, n)),
    decreases n,
{
    if 0 < n <= vars.len() {
        lemma_own_fold_unique(m, vars, n - 1);
        let r = own_fold(m, vars, n - 1);
        let (k, v) = vars[n - 1];
        if v.value.len() == 0 && v.aliases.len() > 0 {
            match str_get(r, k) {
                Some(p) => {
                    lemma_alias_inserts_unique(r, v.aliases, v.aliases.len() as int, p.value, p.secret);
                },
                None => {},
            }
        } else {
            crate::ast::lemma_str_insert_unique(r, k, v);
        }
    }
}

/// A resolved section names each variable once.
pub proof fn lemma_resolve_section_unique(
    f: EnvFileV,
    name: Option<Seq<char>>,
    depth: nat,
    fs: Seq<(Seq<char>, EnvFileV)>,
)
    ensures
        crate::ast::str_keys_unique(resolve_section(f, name, depth, fs)),
    decreases max_depth() + 1 - depth, 1int, 0int,
{
    if depth <= max_depth() {
        let sec = match name {
            Some(n) => str_get(f.sections, n),
            None => Some(f.root_section),
        };
        match sec {
            None => {},
            Some(s) => {
                lemma_parents_fold_unique(f, s.extends, s.extends.len() as int, depth, fs);
                lemma_own_fold_unique(
                    parents_fold(f, s.extends, s.extends.len() as int, depth, fs),
                    s.variables,
                    s.variables.len() as int,
                );
            },
        }
    }
}

/// What one source gives names each variable once.
proof fn lemma_parent_vars_unique(f: EnvFileV, e: EnvSourceV, depth: nat, fs: Seq<(Seq<char>, EnvFileV)>)
    ensures
        parent_vars(f, e, depth, fs) matches Some(vs) ==> crate::ast::str_keys_unique(vs),
    decreases max_depth() + 1 - depth, 0int, 0int,
{
    if depth <= max_depth() {
        match e {
            EnvSourceV::File { file, section } => if file.len() == 0 {
                lemma_resolve_section_unique(f, section, depth + 1, fs);
            } else {
                match env_lookup(fs, file) {
                    Some(g) => lemma_resolve_section_unique(g, section, depth + 1, fs),
                    None => {},
                }
            },
            _ => {},
        }
    }
}

proof fn lemma_parents_fold_unique(
    f: EnvFileV,
    ext: Seq<EnvSourceV>,
    n: int,
    depth: nat,
    fs: Seq<(Seq<char>, EnvFileV)>,
)
    ensures
        crate::ast::str_keys_unique(parents_fold(f, ext, n, depth, fs)),
    decreases max_depth() + 1 - depth, 0int, n,
{
    if 0 < n <= ext.len() && depth <= max_depth() {
        lemma_parents_fold_unique(f, ext, n - 1, depth, fs);
        lemma_parent_vars_unique(f, ext[n - 1], depth, fs);
        match parent_vars(f, ext[n - 1], depth, fs) {
            Some(vs) => lemma_insert_all_unique(parents_fold(f, ext, n - 1, depth, fs), vs),
            None => {},
        }
    }
}

/// The source gives variables that hold `k`.
pub open spec fn gives_key(
    f: EnvFileV,
    e: EnvSourceV,
    depth: nat,
    fs: Seq<(Seq<char>, EnvFileV)>,
    k: Seq<char>,
) -> bool {
    parent_vars(f, e, depth, fs) matches Some(vs) && str_get(vs, k) is Some
}

/// `extends` sources resolve left to right, a later one overriding an earlier
/// one: the variables inherited through the first `n` sources hold, for a name,
/// the value from the last source among them (of this file or another) that
/// gives it.
pub proof fn lemma_later_parent_overrides(
    f: EnvFileV,
    ext: Seq<EnvSourceV>,
    n: int,
    depth: nat,
    fs: Seq<(Seq<char>, EnvFileV)>,
    j: int,
    k: Seq<char>,
)
    requires
        depth <= max_depth(),
        0 <= j < n <= ext.len(),
        gives_key(f, ext[j], depth, fs, k),
        forall|i: int| j < i < n ==> !gives_key(f, #[trigger] ext[i], depth, fs, k),
    ensures
        str_get(parents_fold(f, ext, n, depth, fs), k) == str_get(
            parent_vars(f, ext[j], depth, fs).unwrap(),
            k,
        ),
    decreases n,
{
    let prev = parents_fold(f, ext, n - 1, depth, fs);
    if n == j + 1 {
        lemma_parent_vars_unique(f, ext[j], depth, fs);
        lemma_insert_all_get(prev, parent_vars(f, ext[j], depth, fs).unwrap(), k);
    } else {
        lemma_later_parent_overrides(f, ext, n - 1, depth, fs, j, k);
        assert(!gives_key(f, ext[n - 1], depth, fs, k));
        match parent_vars(f, ext[n - 1], depth, fs) {
            Some(vs) => {
                lemma_parent_vars_unique(f, ext[n - 1], depth, fs);
                lemma_insert_all_get(prev, vs, k);
            },
            None => {},
        }
    }
}

} // verus!
