//! `.env` file output.
use vstd::prelude::*;
use crate::ast::{EnvFile, EnvFileV, EnvSection, EnvSectionV, EnvVariable, EnvVariableV, str_get};
use crate::text::{
    append, chars_of_string, join, join_exec, lex_le, lex_leq, lit, sort_strings, string_of,
    views,
};

verus! {

/// `NAME=value`.
pub open spec fn assignment(name: Seq<char>, value: Seq<char>) -> Seq<char> {
    name + "="@ + value
}

/// The lines of one variable: `KEY=value`, then `ALIAS=value` for each alias.
pub open spec fn var_lines(key: Seq<char>, v: EnvVariableV) -> Seq<Seq<char>> {
    seq![assignment(key, v.value)] + v.aliases.map_values(|a: Seq<char>| assignment(a, v.value))
}

/// The lines of the variables of a section, in entry order.
pub open spec fn section_lines(vars: Seq<(Seq<char>, EnvVariableV)>) -> Seq<Seq<char>>
    decreases vars.len(),
{
    if vars.len() == 0 {
        seq![]
    } else {
        section_lines(vars.drop_last()) + var_lines(vars.last().0, vars.last().1)
    }
}

/// The lines of the first `n` named sections, in order.
pub open spec fn sections_lines(secs: Seq<(Seq<char>, EnvSectionV)>, n: int) -> Seq<Seq<char>>
    decreases n,
{
    if n <= 0 || n > secs.len() {
        seq![]
    } else {
        sections_lines(secs, n - 1) + section_lines(secs[n - 1].1.variables)
    }
}

/// The lines written for an env file: with no name, every section flattened
/// (the root section, then each named section); with a name, that section's
/// lines, none for a name that is not a section.
pub open spec fn env_file_lines(f: EnvFileV, section: Option<Seq<char>>) -> Seq<Seq<char>> {
    match section {
        None => section_lines(f.root_section.variables) + sections_lines(
            f.sections,
            f.sections.len() as int,
        ),
        Some(n) => match str_get(f.sections, n) {
            Some(s) => section_lines(s.variables),
            None => seq![],
        },
    }
}

/// The `.env` text of a section: its lines sorted, one per line.
pub open spec fn env_file_text(f: EnvFileV, section: Option<Seq<char>>) -> Seq<char> {
    join(env_file_lines(f, section).sort_by(lex_leq()), "\n"@)
}

/// The view of an optional string slice.
pub open spec fn opt_str_view(o: Option<&str>) -> Option<Seq<char>> {
    match o {
        Some(s) => Some(s@),
        None => None,
    }
}

/// Generator of `.env` text.
pub struct EnvGenerator;

/// The lines of one variable (see `var_lines`).
fn var_lines_exec(key: &String, var: &EnvVariable) -> (r: Vec<Vec<char>>)
    ensures
        views(r@) == var_lines(key@, var@),
{
    let value = chars_of_string(&var.value);
    let eq = lit("=");
    let mut first = chars_of_string(key);
    append(&mut first, &eq);
    append(&mut first, &value);
    let mut r: Vec<Vec<char>> = vec![first];
    let ghost target = var_lines(key@, var@);
    let mut i: usize = 0;
    while i < var.aliases.len()
        invariant
            i <= var.aliases.len(),
            value@ == var.value@,
            eq@ == "="@,
            target == var_lines(key@, var@),
            views(r@) == target.take(i as int + 1),
        decreases var.aliases.len() - i,
    {
        let mut line = chars_of_string(&var.aliases[i]);
        append(&mut line, &eq);
        append(&mut line, &value);
        assert(line@ == assignment(var.aliases@[i as int]@, var.value@));
        assert(target[i as int + 1] == assignment(var@.aliases[i as int], var.value@));
        let ghost before = views(r@);
        r.push(line);
        assert(views(r@) =~= before.push(target[i as int + 1]));
        assert(views(r@) =~= target.take(i as int + 2));
        i = i + 1;
    }
    assert(target.take(var.aliases.len() as int + 1) =~= target);
    r
}

/// Appends the lines of a section (see `section_lines`).
fn push_section_lines(lines: &mut Vec<Vec<char>>, sec: &EnvSection)
    ensures
        views(final(lines)@) == views(old(lines)@) + section_lines(sec.variables@),
{
    let ghost l0 = views(lines@);
    let ghost vars = sec.variables@;
    let mut i: usize = 0;
    assert(views(lines@) =~= l0 + section_lines(vars.take(0)));
    while i < sec.variables.entries.len()
        invariant
            i <= sec.variables.entries.len(),
            vars == sec.variables@,
            views(lines@) == l0 + section_lines(vars.take(i as int)),
        decreases sec.variables.entries.len() - i,
    {
        let e = &sec.variables.entries[i];
        let more = var_lines_exec(&e.key, &e.value);
        let ghost before = views(lines@);
        let mut more = more;
        let ghost mv = views(more@);
        lines.append(&mut more);
        assert(vars.take(i as int + 1).drop_last() =~= vars.take(i as int));
        assert(views(lines@) =~= before + mv);
        i = i + 1;
    }
    assert(vars.take(vars.len() as int) =~= vars);
}

impl EnvGenerator {
    /// The `.env` text of an env file: with no section name every section
    /// flattened (the root section, then the named ones), otherwise the named
    /// section; every variable as `KEY=value` and every alias as
    /// `ALIAS=value`, sorted, joined by line feeds. A name that is not a
    /// section gives the empty text.
    pub fn generate_env_file(env_file: &EnvFile, section_name: Option<&str>) -> (r: String)
        ensures
            r@ == env_file_text(env_file@, opt_str_view(section_name)),
    {
        let mut lines: Vec<Vec<char>> = Vec::new();
        match section_name {
            Some(name) => match env_file.sections.get(name) {
                Some(sec) => {
                    push_section_lines(&mut lines, sec);
                    assert(views(lines@) =~= section_lines(sec.variables@));
                },
                None => {
                    assert(views(lines@) =~= Seq::<Seq<char>>::empty());
                },
            },
            None => {
                push_section_lines(&mut lines, &env_file.root_section);
                let ghost f = env_file@;
                let mut k: usize = 0;
                assert(views(lines@) =~= section_lines(f.root_section.variables) + sections_lines(
                    f.sections,
                    0,
                ));
                while k < env_file.sections.entries.len()
                    invariant
                        k <= env_file.sections.entries.len(),
                        f == env_file@,
                        views(lines@) == section_lines(f.root_section.variables) + sections_lines(
                            f.sections,
                            k as int,
                        ),
                    decreases env_file.sections.entries.len() - k,
                {
                    let e = &env_file.sections.entries[k];
                    assert(f.sections[k as int] == (e.key@, e.value@));
                    let ghost before = views(lines@);
                    push_section_lines(&mut lines, &e.value);
                    assert(views(lines@) =~= section_lines(f.root_section.variables) + sections_lines(
                        f.sections,
                        k as int + 1,
                    ));
                    k = k + 1;
                }
            },
        }
        let sorted = sort_strings(lines);
        string_of(&join_exec(&sorted, &lit("\n")))
    }

    /// The lines of one variable, `KEY=value` then `ALIAS=value` for each
    /// alias, joined by line feeds (not sorted).
    pub fn generate_service_env(key: &str, var: &EnvVariable) -> (r: String)
        ensures
            r@ == join(var_lines(key@, var@), "\n"@),
    {
        let k = string_of(&crate::text::chars_of(key));
        string_of(&join_exec(&var_lines_exec(&k, var), &lit("\n")))
    }
}

/// The `.env` text of a section (see `EnvGenerator::generate_env_file`).
pub fn generate_env_content(env_file: &EnvFile, section: Option<&str>) -> (r: String)
    ensures
        r@ == env_file_text(env_file@, opt_str_view(section)),
{
    EnvGenerator::generate_env_file(env_file, section)
}

/// The lines of a generated `.env` text are in `str` order, and they are
/// exactly the section's `KEY=value` and `ALIAS=value` lines, each as often as
/// it occurs.
pub proof fn lemma_env_text_sorted(f: EnvFileV, section: Option<Seq<char>>)
    ensures
        vstd::relations::sorted_by(env_file_lines(f, section).sort_by(lex_leq()), lex_leq()),
        env_file_lines(f, section).sort_by(lex_leq()).to_multiset() == env_file_lines(
            f,
            section,
        ).to_multiset(),
{
    crate::text::lemma_lex_total_ordering();
    env_file_lines(f, section).lemma_sort_by_ensures(lex_leq());
}

} // verus!
