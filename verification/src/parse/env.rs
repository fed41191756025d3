//! Env files: sections with `extends`, variables, secrets and aliases.
use vstd::prelude::*;
use crate::ast::{
    EnvFile, EnvFileV, EnvSection, EnvSectionV, EnvSource, EnvSourceV, EnvVariable,
    EnvVariableV, StrMap, str_get, str_insert, strs_view, opt_view,
};
use crate::text::{
    CharClass, append, chars_of, contains, contains_exec, eq_chars, find, find_exec, is_ws,
    lines, lines_exec, lit, slice_of, split_char, split_char_exec, split_once, split_once_exec,
    string_of, trim, trim_class_exec, trim_end_class, trim_end_class_exec, trim_exec,
    trim_start_class, trim_start_class_exec, views, words, words_exec, lemma_find_from,
    matches_at,
};

verus! {

/// The non-empty strings of `s`, in order.
pub open spec fn non_empty(s: Seq<Seq<char>>) -> Seq<Seq<char>>
    decreases s.len(),
{
    if s.len() == 0 {
        seq![]
    } else if s.last().len() > 0 {
        non_empty(s.drop_last()).push(s.last())
    } else {
        non_empty(s.drop_last())
    }
}

/// The alias list after ` as `: comma-separated, trimmed, empty items dropped.
pub open spec fn alias_list(s: Seq<char>) -> Seq<Seq<char>> {
    non_empty(split_char(s, ',').map_values(|x: Seq<char>| trim(x)))
}

/// A value without one pair of enclosing quotes.
pub open spec fn unquoted(s: Seq<char>) -> Seq<char> {
    let t = trim(s);
    if t.len() > 0 && ((t[0] == '"' && t.last() == '"') || (t[0] == '\'' && t.last() == '\'')) {
        t.subrange(1, t.len() - 1)
    } else {
        t
    }
}

/// `strip_quotes` is defined: a lone quote would leave nothing between its quotes.
pub open spec fn unquote_ok(s: Seq<char>) -> bool {
    let t = trim(s);
    !(t.len() == 1 && (t[0] == '"' || t[0] == '\''))
}

/// Position of the ` as ` that starts an alias list, searched after the first `=`.
pub open spec fn as_boundary(line: Seq<char>) -> Option<int> {
    match find(line, "="@) {
        Some(eq) => match find(line.subrange(eq, line.len() as int), " as "@) {
            Some(p) => Some(eq + p),
            None => None,
        },
        None => None,
    }
}

/// The part of a value line before its alias list, and the alias list.
pub open spec fn main_and_aliases(line: Seq<char>) -> (Seq<char>, Seq<Seq<char>>) {
    match as_boundary(line) {
        Some(p) => (line.subrange(0, p), alias_list(line.subrange(p + 4, line.len() as int))),
        None => (line, seq![]),
    }
}

/// Position of the separator of a value line: the first `=`, else the first `:`.
pub open spec fn value_sep(main: Seq<char>) -> Option<int> {
    match find(main, "="@) {
        Some(p) => Some(p),
        None => find(main, ":"@),
    }
}

/// One line of an env file as a variable: `KEY=value`, `*KEY: value`,
/// `KEY=value as A, B` or `KEY as ALIAS`.
pub open spec fn env_line(line: Seq<char>) -> Option<(Seq<char>, EnvVariableV)> {
    if !contains(line, "="@) && !contains(line, ":"@) {
        match find(line, " as "@) {
            Some(p) => {
                let key = trim_start_class(trim(line.subrange(0, p)), CharClass::Exactly('*'));
                let tl = trim(line);
                let secret = tl.len() > 0 && tl[0] == '*';
                let aliases = alias_list(line.subrange(p + 4, line.len() as int));
                if key.len() > 0 && aliases.len() > 0 {
                    Some((key, EnvVariableV { value: seq![], secret, aliases }))
                } else {
                    None
                }
            },
            None => None,
        }
    } else {
        let (main, aliases) = main_and_aliases(line);
        match value_sep(main) {
            Some(pos) => {
                let key_part = trim(main.subrange(0, pos));
                let secret = key_part.len() > 0 && key_part[0] == '*';
                let key = trim_start_class(key_part, CharClass::Exactly('*'));
                let value = unquoted(main.subrange(pos + 1, main.len() as int));
                Some((key, EnvVariableV { value, secret, aliases }))
            },
            None => None,
        }
    }
}

/// Reading the line does not meet a lone quote as its value.
pub open spec fn env_line_ok(line: Seq<char>) -> bool {
    (!contains(line, "="@) && !contains(line, ":"@)) || {
        let (main, aliases) = main_and_aliases(line);
        match value_sep(main) {
            Some(pos) => unquote_ok(main.subrange(pos + 1, main.len() as int)),
            None => true,
        }
    }
}

/// One `extends` source: `section@file.env`, `@file.env` or a local `section`.
pub open spec fn extends_source(part: Seq<char>) -> EnvSourceV {
    let p = trim_end_class(part, CharClass::Exactly(','));
    match split_once(p, '@') {
        Some((sec, file)) => EnvSourceV::File {
            file,
            section: if sec.len() == 0 {
                None
            } else {
                Some(sec)
            },
        },
        None => EnvSourceV::File { file: seq![], section: Some(p) },
    }
}

/// The sources after the word `extends` among the first `n` words.
pub open spec fn extends_fold(ws: Seq<Seq<char>>, n: int) -> (Seq<EnvSourceV>, bool)
    decreases n,
{
    if n <= 0 || n > ws.len() {
        (seq![], false)
    } else {
        let (acc, on) = extends_fold(ws, n - 1);
        let w = ws[n - 1];
        if w == "extends"@ {
            (acc, true)
        } else if !on {
            (acc, false)
        } else {
            (acc.push(extends_source(w)), true)
        }
    }
}

/// The `extends` list of a section header (the text between the brackets).
pub open spec fn header_extends(header: Seq<char>) -> Seq<EnvSourceV> {
    if !contains(header, "extends"@) {
        seq![]
    } else {
        extends_fold(words(header), words(header).len() as int).0
    }
}

/// The physical lines after joining `\`-continued lines, and the pending buffer.
pub open spec fn join_fold(ls: Seq<Seq<char>>, n: int) -> (Seq<Seq<char>>, Seq<char>)
    decreases n,
{
    if n <= 0 || n > ls.len() {
        (seq![], seq![])
    } else {
        let (out, buf) = join_fold(ls, n - 1);
        let line = ls[n - 1];
        if line.len() > 0 && line.last() == '\\' {
            (out, buf + trim(line.drop_last()))
        } else {
            (out.push(buf + trim_start_class(line, CharClass::SpaceTab)), seq![])
        }
    }
}

/// The logical lines of an env file.
pub open spec fn joined_lines(input: Seq<char>) -> Seq<Seq<char>> {
    let (out, buf) = join_fold(lines(input), lines(input).len() as int);
    if buf.len() > 0 {
        out.push(buf)
    } else {
        out
    }
}

/// Inserting every entry of `add`, in order, into `m`.
pub open spec fn str_extend<W>(m: Seq<(Seq<char>, W)>, add: Seq<(Seq<char>, W)>) -> Seq<
    (Seq<char>, W),
>
    decreases add.len(),
{
    if add.len() == 0 {
        m
    } else {
        str_insert(str_extend(m, add.drop_last()), add.last().0, add.last().1)
    }
}

/// Parser state: the root section, the named sections, and the section being read.
pub struct EnvParse {
    pub root: EnvSectionV,
    pub sections: Seq<(Seq<char>, EnvSectionV)>,
    pub cur: Seq<char>,
    pub ext: Seq<EnvSourceV>,
    pub vars: Seq<(Seq<char>, EnvVariableV)>,
}

pub open spec fn empty_section() -> EnvSectionV {
    EnvSectionV { extends: seq![], variables: seq![] }
}

/// Committing the section being read.
pub open spec fn flush(st: EnvParse) -> EnvParse {
    if st.cur.len() == 0 {
        if st.vars.len() != 0 {
            EnvParse {
                root: EnvSectionV {
                    extends: st.ext,
                    variables: str_extend(st.root.variables, st.vars),
                },
                ..st
            }
        } else {
            st
        }
    } else if st.vars.len() != 0 || st.ext.len() != 0 {
        let entry = match str_get(st.sections, st.cur) {
            Some(e) => e,
            None => empty_section(),
        };
        let entry2 = EnvSectionV { extends: st.ext, variables: str_extend(entry.variables, st.vars) };
        EnvParse { sections: str_insert(st.sections, st.cur, entry2), ..st }
    } else {
        st
    }
}

/// One logical line applied to the state; `None` for an empty section header.
pub open spec fn env_step(st: EnvParse, raw: Seq<char>) -> Option<EnvParse> {
    let l = trim(raw);
    if l.len() == 0 || l[0] == '#' {
        Some(st)
    } else if l[0] == '[' && l.last() == ']' {
        let f = flush(st);
        let header = l.subrange(1, l.len() - 1);
        if words(header).len() == 0 {
            None
        } else {
            let name = words(header)[0];
            Some(
                EnvParse {
                    cur: name,
                    ext: header_extends(header),
                    vars: match str_get(f.sections, name) {
                        Some(sec) => sec.variables,
                        None => seq![],
                    },
                    ..f
                },
            )
        }
    } else {
        match env_line(l) {
            Some((k, var)) => Some(EnvParse { vars: str_insert(st.vars, k, var), ..st }),
            None => Some(st),
        }
    }
}

pub open spec fn env_fold(ls: Seq<Seq<char>>, n: int) -> Option<EnvParse>
    decreases n,
{
    if n <= 0 || n > ls.len() {
        Some(
            EnvParse {
                root: empty_section(),
                sections: seq![],
                cur: seq![],
                ext: seq![],
                vars: seq![],
            },
        )
    } else {
        match env_fold(ls, n - 1) {
            Some(st) => env_step(st, ls[n - 1]),
            None => None,
        }
    }
}

/// What `parse_env_file` reads from a text: `None` where a section header is empty.
pub open spec fn parse_env_spec(input: Seq<char>) -> Option<EnvFileV> {
    let ls = joined_lines(input);
    match env_fold(ls, ls.len() as int) {
        Some(st) => {
            let f = flush(st);
            Some(EnvFileV { root_section: f.root, sections: f.sections })
        },
        None => None,
    }
}

/// A logical line that is read as a variable has a readable value.
pub open spec fn logical_line_ok(raw: Seq<char>) -> bool {
    let l = trim(raw);
    l.len() == 0 || l[0] == '#' || (l[0] == '[' && l.last() == ']') || env_line_ok(l)
}

/// Every line that the parser reaches is readable (the parser stops at the first
/// empty section header).
pub open spec fn env_input_ok(input: Seq<char>) -> bool {
    let ls = joined_lines(input);
    forall|i: int|
        0 <= i < ls.len() && #[trigger] env_fold(ls, i) is Some ==> logical_line_ok(ls[i])
}


/// Drops the empty strings of a list.
fn non_empty_exec(v: Vec<Vec<char>>) -> (r: Vec<String>)
    ensures
        strs_view(r@) == non_empty(views(v@)),
{
    let mut r: Vec<String> = Vec::new();
    let mut i: usize = 0;
    while i < v.len()
        invariant
            i <= v.len(),
            strs_view(r@) == non_empty(views(v@).take(i as int)),
        decreases v.len() - i,
    {
        let ghost prev = strs_view(r@);
        assert(views(v@).take(i as int + 1).drop_last() =~= views(v@).take(i as int));
        assert(views(v@).take(i as int + 1).last() == v@[i as int]@);
        if v[i].len() > 0 {
            r.push(string_of(&v[i]));
            assert(strs_view(r@) =~= prev.push(v@[i as int]@));
        }
        i = i + 1;
    }
    assert(views(v@).take(v.len() as int) =~= views(v@));
    r
}

/// Trims each piece.
fn trim_each(pieces: &Vec<Vec<char>>) -> (r: Vec<Vec<char>>)
    ensures
        views(r@) == views(pieces@).map_values(|x: Seq<char>| trim(x)),
{
    let mut r: Vec<Vec<char>> = Vec::new();
    let mut i: usize = 0;
    while i < pieces.len()
        invariant
            i <= pieces.len(),
            views(r@) == views(pieces@).take(i as int).map_values(|x: Seq<char>| trim(x)),
        decreases pieces.len() - i,
    {
        let t = trim_exec(&pieces[i]);
        let ghost prev = views(r@);
        r.push(t);
        assert(views(pieces@)[i as int] == pieces@[i as int]@);
        assert(views(r@) =~= prev.push(t@));
        assert(views(pieces@).take(i as int + 1) =~= views(pieces@).take(i as int).push(
            views(pieces@)[i as int],
        ));
        i = i + 1;
    }
    assert(views(pieces@).take(pieces.len() as int) =~= views(pieces@));
    r
}

fn alias_list_exec(s: &Vec<char>) -> (r: Vec<String>)
    ensures
        strs_view(r@) == alias_list(s@),
{
    let pieces = split_char_exec(s, ',');
    let trimmed = trim_each(&pieces);
    non_empty_exec(trimmed)
}

fn unquoted_exec(s: &Vec<char>) -> (r: Vec<char>)
    requires
        unquote_ok(s@),
    ensures
        r@ == unquoted(s@),
{
    let t = trim_exec(s);
    if t.len() > 0 && ((t[0] == '"' && t[t.len() - 1] == '"') || (t[0] == '\'' && t[t.len() - 1]
        == '\'')) {
        slice_of(&t, 1, t.len() - 1)
    } else {
        t
    }
}

/// A value without one pair of enclosing quotes (`"..."` or `'...'`), trimmed.
/// A lone quote character is left out: the value would have to end before it starts.
pub fn strip_quotes(s: &str) -> (r: String)
    requires
        unquote_ok(s@),
    ensures
        r@ == unquoted(s@),
{
    let v = chars_of(s);
    string_of(&unquoted_exec(&v))
}

fn as_boundary_exec(line: &Vec<char>) -> (r: Option<usize>)
    ensures
        r matches Some(p) ==> as_boundary(line@) == Some(p as int) && p + 4 <= line.len(),
        r is None ==> as_boundary(line@) is None,
{
    match find_exec(line, &lit("=")) {
        Some(eq) => {
            proof {
                lemma_find_from(line@, "="@, 0);
            }
            let after = slice_of(line, eq, line.len());
            match find_exec(&after, &lit(" as ")) {
                Some(p) => {
                    proof {
                        lemma_find_from(after@, " as "@, 0);
                        reveal_strlit(" as ");
                    }
                    Some(eq + p)
                },
                None => None,
            }
        },
        None => None,
    }
}

/// Position of the ` as ` that starts an alias list, looked for after the first `=`.
/// The position is a byte offset into the line's UTF-8 text (`None` too where
/// that offset would not fit in a `usize`).
pub fn find_as_boundary(line: &str) -> (r: Option<usize>)
    ensures
        r matches Some(b) ==> (as_boundary(line@) matches Some(p) && b == crate::text::utf8_size(
            line@.subrange(0, p),
        )),
        r is None ==> (as_boundary(line@) matches Some(p) ==> crate::text::utf8_size(
            line@.subrange(0, p),
        ) > usize::MAX),
{
    let v = chars_of(line);
    match as_boundary_exec(&v) {
        Some(p) => crate::text::utf8_size_upto(&slice_of(&v, 0, p), usize::MAX),
        None => None,
    }
}

fn env_line_exec(line: &Vec<char>) -> (r: Option<(String, EnvVariable)>)
    requires
        env_line_ok(line@),
    ensures
        r matches Some((k, var)) ==> env_line(line@) == Some((k@, var@)),
        r is None ==> env_line(line@) is None,
{
    proof {
        reveal_strlit(" as ");
    }
    if !contains_exec(line, &lit("=")) && !contains_exec(line, &lit(":")) {
        match find_exec(line, &lit(" as ")) {
            Some(p) => {
                proof {
                    lemma_find_from(line@, " as "@, 0);
                    assert(" as "@.len() == 4);
                    assert(p + 4 <= line@.len());
                }
                assert(p + 4 <= line.len());
                let key = trim_start_class_exec(
                    &trim_exec(&slice_of(line, 0, p)),
                    CharClass::Exactly('*'),
                );
                let aliases = alias_list_exec(&slice_of(line, p + 4, line.len()));
                let tl = trim_exec(line);
                let secret = tl.len() > 0 && tl[0] == '*';
                if key.len() > 0 && aliases.len() > 0 {
                    let var = EnvVariable { value: String::new(), secret, aliases };
                    assert(var@.value =~= Seq::<char>::empty());
                    Some((string_of(&key), var))
                } else {
                    None
                }
            },
            None => None,
        }
    } else {
        let (main, aliases) = match as_boundary_exec(line) {
            Some(p) => (slice_of(line, 0, p), alias_list_exec(&slice_of(line, p + 4, line.len()))),
            None => {
                let none: Vec<String> = Vec::new();
                assert(strs_view(none@) =~= Seq::<Seq<char>>::empty());
                (slice_of(line, 0, line.len()), none)
            },
        };
        assert(line@.subrange(0, line.len() as int) =~= line@);
        let sep = match find_exec(&main, &lit("=")) {
            Some(p) => Some(p),
            None => find_exec(&main, &lit(":")),
        };
        proof {
            lemma_find_from(main@, "="@, 0);
            lemma_find_from(main@, ":"@, 0);
            reveal_strlit("=");
            reveal_strlit(":");
        }
        match sep {
            Some(pos) => {
                let key_part = trim_exec(&slice_of(&main, 0, pos));
                let secret = key_part.len() > 0 && key_part[0] == '*';
                let key = trim_start_class_exec(&key_part, CharClass::Exactly('*'));
                let value = unquoted_exec(&slice_of(&main, pos + 1, main.len()));
                Some((string_of(&key), EnvVariable { value: string_of(&value), secret, aliases }))
            },
            None => None,
        }
    }
}

/// Reads one (trimmed) line of an env file as a variable.
pub fn parse_env_line(line: &str) -> (r: Result<(String, EnvVariable), String>)
    requires
        env_line_ok(line@),
    ensures
        r matches Ok((k, var)) ==> env_line(line@) == Some((k@, var@)),
        r matches Err(e) ==> env_line(line@) is None && e@ == "Invalid env line: "@ + line@,
{
    let l = chars_of(line);
    match env_line_exec(&l) {
        Some(kv) => Ok(kv),
        None => {
            let mut msg = lit("Invalid env line: ");
            append(&mut msg, &l);
            Err(string_of(&msg))
        },
    }
}

fn extends_source_exec(part: &Vec<char>) -> (r: EnvSource)
    ensures
        r@ == extends_source(part@),
{
    let p = trim_end_class_exec(part, CharClass::Exactly(','));
    match split_once_exec(&p, '@') {
        Some((sec, file)) => EnvSource::File {
            file: string_of(&file),
            section: if sec.len() == 0 {
                None
            } else {
                Some(string_of(&sec))
            },
        },
        None => EnvSource::File { file: String::new(), section: Some(string_of(&p)) },
    }
}

/// The sources listed after the word `extends` in a section header.
pub fn extract_extends(header: &str) -> (r: Result<Vec<EnvSource>, String>)
    ensures
        r matches Ok(v) && v@.map_values(|e: EnvSource| e@) == header_extends(header@),
{
    let h = chars_of(header);
    let mut out: Vec<EnvSource> = Vec::new();
    if !contains_exec(&h, &lit("extends")) {
        assert(out@.map_values(|e: EnvSource| e@) =~= Seq::<EnvSourceV>::empty());
        return Ok(out);
    }
    let ws = words_exec(&h);
    let kw = lit("extends");
    let mut on = false;
    let mut i: usize = 0;
    while i < ws.len()
        invariant
            i <= ws.len(),
            kw@ == "extends"@,
            views(ws@) == words(h@),
            (out@.map_values(|e: EnvSource| e@), on) == extends_fold(views(ws@), i as int),
        decreases ws.len() - i,
    {
        assert(views(ws@)[i as int] == ws@[i as int]@);
        if eq_chars(&ws[i], &kw) {
            on = true;
        } else if on {
            let ghost prev = out@.map_values(|e: EnvSource| e@);
            let src = extends_source_exec(&ws[i]);
            out.push(src);
            assert(out@.map_values(|e: EnvSource| e@) =~= prev.push(src@));
        }
        i = i + 1;
    }
    Ok(out)
}

/// The section name: the first word of the header; an error for an empty header.
pub fn parse_section_header(header: &str) -> (r: Result<String, String>)
    ensures
        r matches Ok(n) ==> words(header@).len() > 0 && n@ == words(header@)[0],
        r matches Err(e) ==> words(header@).len() == 0 && e@ == "Empty section header"@,
{
    let ws = words_exec(&chars_of(header));
    if ws.len() == 0 {
        Err(String::from_str("Empty section header"))
    } else {
        assert(views(ws@)[0] == ws@[0]@);
        Ok(string_of(&ws[0]))
    }
}


/// A copy of a list of strings.
pub fn copy_strings(v: &Vec<String>) -> (r: Vec<String>)
    ensures
        strs_view(r@) == strs_view(v@),
{
    let mut r: Vec<String> = Vec::new();
    let mut i: usize = 0;
    while i < v.len()
        invariant
            i <= v.len(),
            r.len() == i,
            forall|k: int| 0 <= k < i ==> r@[k]@ == v@[k]@,
        decreases v.len() - i,
    {
        r.push(v[i].clone());
        i = i + 1;
    }
    assert(strs_view(r@) =~= strs_view(v@));
    r
}

/// A copy of an optional string.
pub fn copy_opt(o: &Option<String>) -> (r: Option<String>)
    ensures
        opt_view(r) == opt_view(*o),
{
    match o {
        Some(s) => Some(s.clone()),
        None => None,
    }
}

impl EnvVariable {
    pub fn copy(&self) -> (r: EnvVariable)
        ensures
            r@ == self@,
    {
        EnvVariable {
            value: self.value.clone(),
            secret: self.secret,
            aliases: copy_strings(&self.aliases),
        }
    }
}

impl EnvSource {
    pub fn copy(&self) -> (r: EnvSource)
        ensures
            r@ == self@,
    {
        match self {
            EnvSource::Inline { key, value, secret } => EnvSource::Inline {
                key: key.clone(),
                value: value.clone(),
                secret: *secret,
            },
            EnvSource::File { file, section } => EnvSource::File {
                file: file.clone(),
                section: copy_opt(section),
            },
            EnvSource::VarRef { key, file, section } => EnvSource::VarRef {
                key: key.clone(),
                file: file.clone(),
                section: copy_opt(section),
            },
        }
    }
}

/// A copy of a list of sources.
pub fn copy_sources(v: &Vec<EnvSource>) -> (r: Vec<EnvSource>)
    ensures
        r@.map_values(|e: EnvSource| e@) == v@.map_values(|e: EnvSource| e@),
{
    let mut r: Vec<EnvSource> = Vec::new();
    let mut i: usize = 0;
    while i < v.len()
        invariant
            i <= v.len(),
            r.len() == i,
            forall|k: int| 0 <= k < i ==> r@[k]@ == v@[k]@,
        decreases v.len() - i,
    {
        r.push(v[i].copy());
        i = i + 1;
    }
    assert(r@.map_values(|e: EnvSource| e@) =~= v@.map_values(|e: EnvSource| e@));
    r
}

/// A copy of a variable map.
pub fn copy_vars(m: &StrMap<EnvVariable>) -> (r: StrMap<EnvVariable>)
    ensures
        r@ == m@,
{
    let mut out: Vec<crate::ast::StrEntry<EnvVariable>> = Vec::new();
    let mut i: usize = 0;
    while i < m.entries.len()
        invariant
            i <= m.entries.len(),
            out.len() == i,
            forall|k: int|
                0 <= k < i ==> out@[k].key@ == m.entries@[k].key@ && out@[k].value@
                    == m.entries@[k].value@,
        decreases m.entries.len() - i,
    {
        out.push(
            crate::ast::StrEntry { key: m.entries[i].key.clone(), value: m.entries[i].value.copy() },
        );
        i = i + 1;
    }
    let r = StrMap { entries: out };
    assert(r@ =~= m@);
    r
}

impl EnvSection {
    pub fn copy(&self) -> (r: EnvSection)
        ensures
            r@ == self@,
    {
        EnvSection { extends: copy_sources(&self.extends), variables: copy_vars(&self.variables) }
    }
}

/// Inserts every entry of `add`, in order, into `m`.
pub fn extend_vars(m: &mut StrMap<EnvVariable>, add: &StrMap<EnvVariable>)
    ensures
        final(m)@ == str_extend(old(m)@, add@),
{
    let ghost m0 = m@;
    let mut i: usize = 0;
    while i < add.entries.len()
        invariant
            i <= add.entries.len(),
            m@ == str_extend(m0, add@.take(i as int)),
        decreases add.entries.len() - i,
    {
        assert(add@.take(i as int + 1).drop_last() =~= add@.take(i as int));
        m.insert(add.entries[i].key.clone(), add.entries[i].value.copy());
        i = i + 1;
    }
    assert(add@.take(add@.len() as int) =~= add@);
}

/// Commits the section being read into the root section or the named sections
/// (see `flush`).
pub fn flush_section(
    name: &str,
    extends: &Vec<EnvSource>,
    vars: &StrMap<EnvVariable>,
    root: &mut EnvSection,
    sections: &mut StrMap<EnvSection>,
)
    ensures
        ({
            let st = EnvParse {
                root: old(root)@,
                sections: old(sections)@,
                cur: name@,
                ext: extends@.map_values(|e: EnvSource| e@),
                vars: vars@,
            };
            final(root)@ == flush(st).root && final(sections)@ == flush(st).sections
        }),
{
    let n = chars_of(name);
    if n.len() == 0 {
        if !vars.is_empty() {
            root.extends = copy_sources(extends);
            extend_vars(&mut root.variables, vars);
        }
    } else if !vars.is_empty() || extends.len() != 0 {
        let mut entry = match sections.get(name) {
            Some(e) => e.copy(),
            None => {
                let e = EnvSection { extends: Vec::new(), variables: StrMap::new() };
                assert(e@.extends =~= Seq::<EnvSourceV>::empty());
                e
            },
        };
        entry.extends = copy_sources(extends);
        extend_vars(&mut entry.variables, vars);
        sections.insert(string_of(&n), entry);
    }
}

/// Joins `\`-continued lines (see `joined_lines`).
fn join_lines_exec(text: &Vec<char>) -> (r: Vec<Vec<char>>)
    ensures
        views(r@) == joined_lines(text@),
{
    let ls = lines_exec(text);
    let mut out: Vec<Vec<char>> = Vec::new();
    let mut buf: Vec<char> = Vec::new();
    let mut i: usize = 0;
    while i < ls.len()
        invariant
            i <= ls.len(),
            views(ls@) == lines(text@),
            (views(out@), buf@) == join_fold(views(ls@), i as int),
        decreases ls.len() - i,
    {
        let line = &ls[i];
        assert(views(ls@)[i as int] == ls@[i as int]@);
        if line.len() > 0 && line[line.len() - 1] == '\\' {
            let body = trim_exec(&slice_of(line, 0, line.len() - 1));
            assert(line@.subrange(0, line.len() - 1) == line@.drop_last()) by {
                assert(line@.subrange(0, line.len() - 1) =~= line@.drop_last());
            }
            append(&mut buf, &body);
        } else {
            let rest = trim_start_class_exec(line, CharClass::SpaceTab);
            append(&mut buf, &rest);
            let ghost prev = views(out@);
            out.push(buf);
            assert(views(out@) =~= prev.push(buf@));
            buf = Vec::new();
            assert(buf@ =~= Seq::<char>::empty());
        }
        i = i + 1;
    }
    if buf.len() > 0 {
        let ghost prev = views(out@);
        out.push(buf);
        assert(views(out@) =~= prev.push(buf@));
    }
    out
}


proof fn lemma_env_fold_none(ls: Seq<Seq<char>>, i: int, n: int)
    requires
        0 < i <= n <= ls.len(),
        env_fold(ls, i) is None,
    ensures
        env_fold(ls, n) is None,
    decreases n - i,
{
    if i < n {
        lemma_env_fold_none(ls, i, n - 1);
    }
}

/// Parses an env file: lines before the first `[...]` form the root section; each
/// `[name extends ...]` header starts (or reopens) a named section.  Fails on an
/// empty section header.
pub fn parse_env_file(input: &str) -> (r: Result<EnvFile, String>)
    requires
        env_input_ok(input@),
    ensures
        r matches Ok(f) ==> parse_env_spec(input@) == Some(f@),
        r matches Err(e) ==> parse_env_spec(input@) is None && e@ == "Empty section header"@,
{
    let text = chars_of(input);
    let ls = join_lines_exec(&text);
    let mut root = EnvSection { extends: Vec::new(), variables: StrMap::new() };
    let mut sections: StrMap<EnvSection> = StrMap::new();
    let mut cur: Vec<char> = Vec::new();
    let mut ext: Vec<EnvSource> = Vec::new();
    let mut vars: StrMap<EnvVariable> = StrMap::new();
    assert(root@.extends =~= Seq::<EnvSourceV>::empty());
    assert(root@ == empty_section());
    assert(ext@.map_values(|e: EnvSource| e@) =~= Seq::<EnvSourceV>::empty());
    let mut i: usize = 0;
    while i < ls.len()
        invariant
            i <= ls.len(),
            views(ls@) == joined_lines(input@),
            env_input_ok(input@),
            env_fold(views(ls@), i as int) == Some(
                EnvParse {
                    root: root@,
                    sections: sections@,
                    cur: cur@,
                    ext: ext@.map_values(|e: EnvSource| e@),
                    vars: vars@,
                },
            ),
        decreases ls.len() - i,
    {
        assert(views(ls@)[i as int] == ls@[i as int]@);
        assert(logical_line_ok(ls@[i as int]@));
        let l = trim_exec(&ls[i]);
        if l.len() == 0 || l[0] == '#' {
        } else if l[0] == '[' && l[l.len() - 1] == ']' {
            let name_str = string_of(&cur);
            flush_section(name_str.as_str(), &ext, &vars, &mut root, &mut sections);
            let header = slice_of(&l, 1, l.len() - 1);
            let header_str = string_of(&header);
            let name = match parse_section_header(header_str.as_str()) {
                Ok(n) => n,
                Err(e) => {
                    proof {
                        lemma_env_fold_none(views(ls@), i as int + 1, views(ls@).len() as int);
                    }
                    return Err(e);
                },
            };
            let new_ext = match extract_extends(header_str.as_str()) {
                Ok(x) => x,
                Err(e) => {
                    return Err(e);
                },
            };
            let new_vars = match sections.get(name.as_str()) {
                Some(sec) => copy_vars(&sec.variables),
                None => StrMap::new(),
            };
            cur = chars_of(name.as_str());
            ext = new_ext;
            vars = new_vars;
        } else {
            match env_line_exec(&l) {
                Some((k, var)) => {
                    vars.insert(k, var);
                },
                None => {},
            }
        }
        i = i + 1;
    }
    let name_str = string_of(&cur);
    flush_section(name_str.as_str(), &ext, &vars, &mut root, &mut sections);
    Ok(EnvFile { root_section: root, sections })
}

/// A logical line that is a section header with no name.
pub open spec fn empty_header(raw: Seq<char>) -> bool {
    let l = trim(raw);
    l.len() > 0 && l[0] == '[' && l.last() == ']' && words(l.subrange(1, l.len() - 1)).len() == 0
}

/// The parser stops exactly at the first empty section header.
pub proof fn lemma_env_fold_some(ls: Seq<Seq<char>>, n: int)
    requires
        0 <= n <= ls.len(),
    ensures
        env_fold(ls, n) is Some <==> forall|j: int| 0 <= j < n ==> !empty_header(#[trigger] ls[j]),
    decreases n,
{
    if n > 0 {
        lemma_env_fold_some(ls, n - 1);
        if let Some(st) = env_fold(ls, n - 1) {
            let l = trim(ls[n - 1]);
            if l.len() > 0 && l[0] != '#' && l[0] == '[' && l.last() == ']' {
                assert(empty_header(ls[n - 1]) <==> words(l.subrange(1, l.len() - 1)).len() == 0);
            }
        }
    }
}

fn unquote_ok_exec(s: &Vec<char>) -> (r: bool)
    ensures
        r == unquote_ok(s@),
{
    let t = trim_exec(s);
    !(t.len() == 1 && (t[0] == '"' || t[0] == '\''))
}

fn env_line_ok_exec(line: &Vec<char>) -> (r: bool)
    ensures
        r == env_line_ok(line@),
{
    if !contains_exec(line, &lit("=")) && !contains_exec(line, &lit(":")) {
        return true;
    }
    let main = match as_boundary_exec(line) {
        Some(p) => slice_of(line, 0, p),
        None => slice_of(line, 0, line.len()),
    };
    assert(line@.subrange(0, line.len() as int) =~= line@);
    assert(main@ == main_and_aliases(line@).0);
    let sep = match find_exec(&main, &lit("=")) {
        Some(p) => Some(p),
        None => find_exec(&main, &lit(":")),
    };
    proof {
        lemma_find_from(main@, "="@, 0);
        lemma_find_from(main@, ":"@, 0);
        reveal_strlit("=");
        reveal_strlit(":");
    }
    match sep {
        Some(pos) => unquote_ok_exec(&slice_of(&main, pos + 1, main.len())),
        None => true,
    }
}

/// Every line the parser reaches is readable (see `env_input_ok`): the text
/// can be given to `parse_env_file`.
pub fn env_input_check(input: &str) -> (r: bool)
    ensures
        r == env_input_ok(input@),
{
    let ls = join_lines_exec(&chars_of(input));
    let ghost lv = views(ls@);
    assert(lv == joined_lines(input@));
    let mut i: usize = 0;
    while i < ls.len()
        invariant
            i <= ls.len(),
            lv == views(ls@),
            lv == joined_lines(input@),
            forall|j: int| 0 <= j < i ==> !empty_header(#[trigger] lv[j]),
            forall|j: int| 0 <= j < i ==> logical_line_ok(#[trigger] lv[j]),
        decreases ls.len() - i,
    {
        let l = trim_exec(&ls[i]);
        assert(lv[i as int] == ls@[i as int]@);
        let ok = l.len() == 0 || l[0] == '#' || (l[0] == '[' && l[l.len() - 1] == ']')
            || env_line_ok_exec(&l);
        if !ok {
            proof {
                lemma_env_fold_some(lv, i as int);
            }
            assert(env_fold(lv, i as int) is Some);
            assert(!logical_line_ok(lv[i as int]));
            return false;
        }
        if l.len() > 0 && l[0] == '[' && l[l.len() - 1] == ']' {
            let words = words_exec(&slice_of(&l, 1, l.len() - 1));
            if words.len() == 0 {
                assert(empty_header(lv[i as int]));
                proof {
                    assert forall|j: int| 0 <= j < lv.len() && #[trigger] env_fold(lv, j) is Some
                        implies logical_line_ok(lv[j]) by {
                        if j > i {
                            lemma_env_fold_some(lv, j);
                            assert(empty_header(lv[i as int]));
                        }
                    }
                }
                return true;
            }
        }
        i = i + 1;
    }
    true
}

} // verus!
