//! Parsers for the three DSLs, and the lexical pieces that the service parser is
//! built from: whitespace, tags, "take until", line endings, identifiers and
//! quoted strings, each over a character sequence and a position in it.
pub mod config;
pub mod env;
pub mod service;

pub use config::parse_config_file;
pub use env::parse_env_file;
pub use service::parse_service_file;

use vstd::prelude::*;
use vstd::string::StrSliceExecFns;
use crate::text::{
    CharClass, alphabetic, chars_of, find_from, find_from_exec, is_alphabetic, is_numeric,
    lemma_find_from, lemma_skip_class, lit, matches_at, matches_at_exec, numeric, skip_class,
    skip_class_exec, slice_of, string_of,
};

verus! {

/// What a parser expected where it failed.
#[derive(Clone, Copy, PartialEq, Eq, Structural, Debug)]
pub enum ErrorKind {
    Tag,
    TakeUntil,
    TakeWhile1,
    CrLf,
    MultiSpace,
    Char,
}

impl ErrorKind {
    /// The name of the kind, as it appears in error messages.
    pub fn name(&self) -> (r: String)
        ensures
            r@ == kind_name(*self),
    {
        match self {
            ErrorKind::Tag => String::from_str("Tag"),
            ErrorKind::TakeUntil => String::from_str("TakeUntil"),
            ErrorKind::TakeWhile1 => String::from_str("TakeWhile1"),
            ErrorKind::CrLf => String::from_str("CrLf"),
            ErrorKind::MultiSpace => String::from_str("MultiSpace"),
            ErrorKind::Char => String::from_str("Char"),
        }
    }
}

pub open spec fn kind_name(k: ErrorKind) -> Seq<char> {
    match k {
        ErrorKind::Tag => "Tag"@,
        ErrorKind::TakeUntil => "TakeUntil"@,
        ErrorKind::TakeWhile1 => "TakeWhile1"@,
        ErrorKind::CrLf => "CrLf"@,
        ErrorKind::MultiSpace => "MultiSpace"@,
        ErrorKind::Char => "Char"@,
    }
}

/// A parse failure: what was expected, and the remaining input where it failed.
#[derive(Debug, PartialEq, Eq)]
pub struct ParseError<'a> {
    pub input: &'a str,
    pub kind: ErrorKind,
}

/// End of the run of spaces, tabs, carriage returns and line feeds at `p`.
pub open spec fn ws_end(s: Seq<char>, p: int) -> int {
    skip_class(s, p, CharClass::Multispace)
}

/// Position after the tag `t` at `p`.
pub open spec fn tag_end(s: Seq<char>, p: int, t: Seq<char>) -> Option<int> {
    if matches_at(s, t, p) {
        Some(p + t.len())
    } else {
        None
    }
}

/// Position after a line ending (`\n` or `\r\n`) at `p`.
pub open spec fn eol_end(s: Seq<char>, p: int) -> Option<int> {
    if matches_at(s, seq!['\n'], p) {
        Some(p + 1)
    } else if matches_at(s, seq!['\r', '\n'], p) {
        Some(p + 2)
    } else {
        None
    }
}

pub open spec fn ident_start(c: char) -> bool {
    alphabetic(c) || c == '_'
}

pub open spec fn ident_char(c: char) -> bool {
    alphabetic(c) || numeric(c) || c == '_' || c == '-'
}

/// End of the run of identifier characters at `i`.
pub open spec fn ident_tail(s: Seq<char>, i: int) -> int
    decreases s.len() - i,
{
    if 0 <= i < s.len() && ident_char(s[i]) {
        ident_tail(s, i + 1)
    } else {
        i
    }
}

/// End of the identifier at `p`: a letter or `_`, then letters, digits, `_` and `-`.
pub open spec fn ident_end(s: Seq<char>, p: int) -> Option<int> {
    if 0 <= p < s.len() && ident_start(s[p]) {
        Some(ident_tail(s, p + 1))
    } else {
        None
    }
}

/// A string in double or single quotes at `p`: the position after it and its content.
pub open spec fn quoted(s: Seq<char>, p: int) -> Option<(int, Seq<char>)> {
    if 0 <= p < s.len() && (s[p] == '"' || s[p] == '\'') {
        match find_from(s, seq![s[p]], p + 1) {
            Some(j) => Some((j + 1, s.subrange(p + 1, j))),
            None => None,
        }
    } else {
        None
    }
}

pub proof fn lemma_ident_tail(s: Seq<char>, i: int)
    requires
        0 <= i <= s.len(),
    ensures
        i <= ident_tail(s, i) <= s.len(),
    decreases s.len() - i,
{
    if i < s.len() && ident_char(s[i]) {
        lemma_ident_tail(s, i + 1);
    }
}

pub proof fn lemma_quoted(s: Seq<char>, p: int)
    requires
        0 <= p,
    ensures
        quoted(s, p) matches Some((q, c)) ==> p < q <= s.len(),
{
    if 0 <= p < s.len() && (s[p] == '"' || s[p] == '\'') {
        lemma_find_from(s, seq![s[p]], p + 1);
    }
}

pub fn ws_end_exec(v: &Vec<char>, p: usize) -> (r: usize)
    requires
        p <= v.len(),
    ensures
        r == ws_end(v@, p as int),
        p <= r <= v.len(),
{
    proof {
        lemma_skip_class(v@, p as int, CharClass::Multispace);
    }
    skip_class_exec(v, p, CharClass::Multispace)
}

pub fn tag_end_exec(v: &Vec<char>, p: usize, t: &Vec<char>) -> (r: Option<usize>)
    ensures
        r matches Some(q) ==> tag_end(v@, p as int, t@) == Some(q as int) && q <= v.len(),
        r is None ==> tag_end(v@, p as int, t@) is None,
{
    if matches_at_exec(v, t, p) {
        let n = v.len();
        let m = t.len();
        assert(p + m <= n);
        Some(p + m)
    } else {
        None
    }
}

pub fn eol_end_exec(v: &Vec<char>, p: usize) -> (r: Option<usize>)
    ensures
        r matches Some(q) ==> eol_end(v@, p as int) == Some(q as int) && q <= v.len(),
        r is None ==> eol_end(v@, p as int) is None,
{
    let nl = vec!['\n'];
    let crlf = vec!['\r', '\n'];
    assert(nl@ =~= seq!['\n']);
    assert(crlf@ =~= seq!['\r', '\n']);
    if matches_at_exec(v, &nl, p) {
        let n = v.len();
        assert(p + 1 <= n);
        Some(p + 1)
    } else if matches_at_exec(v, &crlf, p) {
        let n = v.len();
        assert(p + 2 <= n);
        Some(p + 2)
    } else {
        None
    }
}

pub fn ident_end_exec(v: &Vec<char>, p: usize) -> (r: Option<usize>)
    ensures
        r matches Some(q) ==> ident_end(v@, p as int) == Some(q as int) && p < q <= v.len(),
        r is None ==> ident_end(v@, p as int) is None,
{
    if p < v.len() && (is_alphabetic(v[p]) || v[p] == '_') {
        let mut i = p + 1;
        while i < v.len() && (is_alphabetic(v[i]) || is_numeric(v[i]) || v[i] == '_' || v[i]
            == '-')
            invariant
                p < i <= v.len(),
                ident_tail(v@, i as int) == ident_tail(v@, p + 1),
            decreases v.len() - i,
        {
            i = i + 1;
        }
        Some(i)
    } else {
        None
    }
}

pub fn quoted_exec(v: &Vec<char>, p: usize) -> (r: Option<(usize, Vec<char>)>)
    ensures
        r matches Some((q, c)) ==> quoted(v@, p as int) == Some((q as int, c@)) && p < q
            <= v.len(),
        r is None ==> quoted(v@, p as int) is None,
{
    if p < v.len() && (v[p] == '"' || v[p] == '\'') {
        let q = vec![v[p]];
        assert(q@ =~= seq![v@[p as int]]);
        proof {
            lemma_find_from(v@, q@, p + 1);
        }
        match find_from_exec(v, &q, p + 1) {
            Some(j) => Some((j + 1, slice_of(v, p + 1, j))),
            None => None,
        }
    } else {
        None
    }
}

/// The characters of `input` from index `from` on, as a slice of it.
pub fn rest_of<'a>(input: &'a str, from: usize) -> (r: &'a str)
    requires
        from <= input@.len(),
    ensures
        r@ == input@.subrange(from as int, input@.len() as int),
{
    let n = input.unicode_len();
    input.substring_char(from, n)
}

/// Skips spaces, tabs, carriage returns and line feeds; returns the rest and what was skipped.
pub fn ws<'a>(input: &'a str) -> (r: Result<(&'a str, &'a str), ParseError<'a>>)
    ensures
        r matches Ok((rest, sp)) && sp@ == input@.subrange(0, ws_end(input@, 0))
            && rest@ == input@.subrange(ws_end(input@, 0), input@.len() as int),
{
    let v = chars_of(input);
    let e = ws_end_exec(&v, 0);
    Ok((rest_of(input, e), input.substring_char(0, e)))
}

/// Like `ws`, but at least one such character is required.
pub fn ws1<'a>(input: &'a str) -> (r: Result<(&'a str, &'a str), ParseError<'a>>)
    ensures
        ws_end(input@, 0) > 0 ==> (r matches Ok((rest, sp)) && sp@ == input@.subrange(
            0,
            ws_end(input@, 0),
        ) && rest@ == input@.subrange(ws_end(input@, 0), input@.len() as int)),
        ws_end(input@, 0) == 0 ==> (r matches Err(e) && e.input@ == input@ && e.kind
            == ErrorKind::MultiSpace),
{
    let v = chars_of(input);
    let e = ws_end_exec(&v, 0);
    if e == 0 {
        Err(ParseError { input, kind: ErrorKind::MultiSpace })
    } else {
        Ok((rest_of(input, e), input.substring_char(0, e)))
    }
}

/// Runs `parser` on `input`, then skips the spaces, tabs and line breaks after
/// what it read: its output with the rest after them, or its error.
pub fn lexeme<'a, O, F>(parser: F, input: &'a str) -> (r: Result<(&'a str, O), ParseError<'a>>)
    where
        F: Fn(&'a str) -> Result<(&'a str, O), ParseError<'a>>,
    requires
        call_requires(parser, (input,)),
    ensures
        r matches Ok((rest, o)) ==> exists|rest0: &'a str|
            call_ensures(parser, (input,), Ok((rest0, o))) && #[trigger] rest0@.subrange(
                ws_end(rest0@, 0),
                rest0@.len() as int,
            ) == rest@,
        r matches Err(e) ==> call_ensures(parser, (input,), Err(e)),
{
    match parser(input) {
        Ok((rest0, o)) => {
            let v = chars_of(rest0);
            let e = ws_end_exec(&v, 0);
            Ok((rest_of(rest0, e), o))
        },
        Err(e) => Err(e),
    }
}

/// An identifier at the start of `input`: the rest and the identifier.
pub fn identifier<'a>(input: &'a str) -> (r: Result<(&'a str, String), ParseError<'a>>)
    ensures
        match ident_end(input@, 0) {
            Some(q) => r matches Ok((rest, id)) && id@ == input@.subrange(0, q) && rest@
                == input@.subrange(q, input@.len() as int),
            None => r matches Err(e) && e.input@ == input@ && e.kind == ErrorKind::TakeWhile1,
        },
{
    let v = chars_of(input);
    match ident_end_exec(&v, 0) {
        Some(q) => Ok((rest_of(input, q), string_of(&slice_of(&v, 0, q)))),
        None => Err(ParseError { input, kind: ErrorKind::TakeWhile1 }),
    }
}

/// A string in double or single quotes at the start of `input`: the rest and the content.
pub fn quoted_string<'a>(input: &'a str) -> (r: Result<(&'a str, String), ParseError<'a>>)
    ensures
        match quoted(input@, 0) {
            Some((q, c)) => r matches Ok((rest, s)) && s@ == c && rest@ == input@.subrange(
                q,
                input@.len() as int,
            ),
            None => r matches Err(e) && if input@.len() > 0 && input@[0] == '\'' {
                e.kind == ErrorKind::TakeUntil && e.input@ == input@.subrange(
                    1,
                    input@.len() as int,
                )
            } else {
                e.kind == ErrorKind::Char && e.input@ == input@
            },
        },
{
    let v = chars_of(input);
    match quoted_exec(&v, 0) {
        Some((q, c)) => Ok((rest_of(input, q), string_of(&c))),
        None => {
            if v.len() > 0 && v[0] == '\'' {
                Err(ParseError { input: rest_of(input, 1), kind: ErrorKind::TakeUntil })
            } else {
                Err(ParseError { input, kind: ErrorKind::Char })
            }
        },
    }
}

/// A `#` comment up to (not including) the line feed: the rest and the comment text.
pub fn skip_comment<'a>(input: &'a str) -> (r: Result<(&'a str, &'a str), ParseError<'a>>)
    ensures
        (input@.len() > 0 && input@[0] == '#' && find_from(input@, seq!['\n'], 1) is Some) ==> (
        r matches Ok((rest, c)) && c@ == input@.subrange(
            1,
            find_from(input@, seq!['\n'], 1)->0,
        ) && rest@ == input@.subrange(
            find_from(input@, seq!['\n'], 1)->0,
            input@.len() as int,
        )),
        !(input@.len() > 0 && input@[0] == '#') ==> (r matches Err(e) && e.kind == ErrorKind::Char
            && e.input@ == input@),
        (input@.len() > 0 && input@[0] == '#' && find_from(input@, seq!['\n'], 1) is None) ==> (
        r matches Err(e) && e.kind == ErrorKind::TakeUntil && e.input@ == input@.subrange(
            1,
            input@.len() as int,
        )),
{
    let v = chars_of(input);
    if v.len() == 0 || v[0] != '#' {
        return Err(ParseError { input, kind: ErrorKind::Char });
    }
    let nl = vec!['\n'];
    assert(nl@ =~= seq!['\n']);
    proof {
        lemma_find_from(v@, seq!['\n'], 1);
    }
    match find_from_exec(&v, &nl, 1) {
        Some(j) => Ok((rest_of(input, j), input.substring_char(1, j))),
        None => Err(ParseError { input: rest_of(input, 1), kind: ErrorKind::TakeUntil }),
    }
}

/// The text up to the next line feed, cut before the first `"# "`: the rest (from the
/// line feed on) and the content.
pub fn line_content<'a>(input: &'a str) -> (r: Result<(&'a str, &'a str), ParseError<'a>>)
    ensures
        match find_from(input@, seq!['\n'], 0) {
            Some(j) => r matches Ok((rest, c)) && rest@ == input@.subrange(j, input@.len() as int)
                && c@ == match find_from(input@.subrange(0, j), "# "@, 0) {
                Some(k) => input@.subrange(0, k),
                None => input@.subrange(0, j),
            },
            None => r matches Err(e) && e.kind == ErrorKind::TakeUntil && e.input@ == input@,
        },
{
    let v = chars_of(input);
    let nl = vec!['\n'];
    assert(nl@ =~= seq!['\n']);
    proof {
        lemma_find_from(v@, seq!['\n'], 0);
    }
    match find_from_exec(&v, &nl, 0) {
        Some(j) => {
            let line = slice_of(&v, 0, j);
            let hash = lit("# ");
            proof {
                lemma_find_from(line@, hash@, 0);
            }
            let cut = match find_from_exec(&line, &hash, 0) {
                Some(k) => k,
                None => j,
            };
            assert(input@.subrange(0, j as int) =~= line@);
            assert(cut <= j);
            Ok((rest_of(input, j), input.substring_char(0, cut)))
        },
        None => Err(ParseError { input, kind: ErrorKind::TakeUntil }),
    }
}

} // verus!
