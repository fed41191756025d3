//! Character-level text toolkit: the string operations that the parsers and
//! generators are written with, each stated over `Seq<char>`.
use vstd::prelude::*;

verus! {

/// Appends one character to a string.
/// Calls `String::push`; the contract claims the string grows by exactly that character.
#[verifier::external_body]
fn push_char(s: &mut String, c: char)
    ensures
        final(s)@ == old(s)@.push(c),
{
    s.push(c);
}

/// The characters of a string slice, in order.
pub fn chars_of(s: &str) -> (v: Vec<char>)
    ensures
        v@ == s@,
{
    let mut v: Vec<char> = Vec::new();
    for c in it: s.chars()
        invariant
            v@ == it.seq().take(it.index()),
            it.seq() == s@,
    {
        v.push(c);
    }
    v
}

/// A string holding exactly the given characters.
pub fn string_of(v: &Vec<char>) -> (s: String)
    ensures
        s@ == v@,
{
    let mut s = String::new();
    let mut i: usize = 0;
    while i < v.len()
        invariant
            i <= v.len(),
            s@ == v@.take(i as int),
        decreases v.len() - i,
    {
        push_char(&mut s, v[i]);
        i = i + 1;
        assert(s@ =~= v@.take(i as int));
    }
    assert(v@.take(v.len() as int) =~= v@);
    s
}

/// The characters of a string.
pub fn chars_of_string(s: &String) -> (v: Vec<char>)
    ensures
        v@ == s@,
{
    chars_of(s.as_str())
}

/// Unicode `White_Space` (the set that `char::is_whitespace` tests).
pub open spec fn is_ws(c: char) -> bool {
    let u = c as u32;
    (9 <= u && u <= 13) || u == 32 || u == 0x85 || u == 0xA0 || u == 0x1680 || (0x2000 <= u
        && u <= 0x200A) || u == 0x2028 || u == 0x2029 || u == 0x202F || u == 0x205F || u
        == 0x3000
}

/// Classes of characters that trimming and skipping work with.
#[derive(Clone, Copy)]
pub enum CharClass {
    /// Unicode whitespace.
    Whitespace,
    /// A space or a tab.
    SpaceTab,
    /// A space, tab, carriage return or line feed.
    Multispace,
    /// A carriage return or line feed.
    LineBreak,
    /// One given character.
    Exactly(char),
}

pub open spec fn in_class(cl: CharClass, c: char) -> bool {
    match cl {
        CharClass::Whitespace => is_ws(c),
        CharClass::SpaceTab => c == ' ' || c == '\t',
        CharClass::Multispace => c == ' ' || c == '\t' || c == '\r' || c == '\n',
        CharClass::LineBreak => c == '\r' || c == '\n',
        CharClass::Exactly(d) => c == d,
    }
}

/// Whether `c` is Unicode whitespace.
pub fn is_whitespace(c: char) -> (b: bool)
    ensures
        b == is_ws(c),
{
    let u = c as u32;
    (9 <= u && u <= 13) || u == 32 || u == 0x85 || u == 0xA0 || u == 0x1680 || (0x2000 <= u
        && u <= 0x200A) || u == 0x2028 || u == 0x2029 || u == 0x202F || u == 0x205F || u
        == 0x3000
}

pub fn in_class_exec(cl: CharClass, c: char) -> (b: bool)
    ensures
        b == in_class(cl, c),
{
    match cl {
        CharClass::Whitespace => is_whitespace(c),
        CharClass::SpaceTab => c == ' ' || c == '\t',
        CharClass::Multispace => c == ' ' || c == '\t' || c == '\r' || c == '\n',
        CharClass::LineBreak => c == '\r' || c == '\n',
        CharClass::Exactly(d) => c == d,
    }
}

/// First index at or after `i` whose character is not in the class.
pub open spec fn skip_class(s: Seq<char>, i: int, cl: CharClass) -> int
    decreases s.len() - i,
{
    if 0 <= i < s.len() && in_class(cl, s[i]) {
        skip_class(s, i + 1, cl)
    } else {
        i
    }
}

/// Start of the run of class characters that ends at `j`.
pub open spec fn skip_class_back(s: Seq<char>, j: int, cl: CharClass) -> int
    decreases j,
{
    if 0 < j <= s.len() && in_class(cl, s[j - 1]) {
        skip_class_back(s, j - 1, cl)
    } else {
        j
    }
}

pub proof fn lemma_skip_class(s: Seq<char>, i: int, cl: CharClass)
    requires
        0 <= i <= s.len(),
    ensures
        i <= skip_class(s, i, cl) <= s.len(),
        skip_class(s, i, cl) < s.len() ==> !in_class(cl, s[skip_class(s, i, cl)]),
        forall|k: int| i <= k < skip_class(s, i, cl) ==> in_class(cl, #[trigger] s[k]),
    decreases s.len() - i,
{
    if i < s.len() && in_class(cl, s[i]) {
        lemma_skip_class(s, i + 1, cl);
    }
}

pub proof fn lemma_skip_class_back(s: Seq<char>, j: int, cl: CharClass)
    requires
        0 <= j <= s.len(),
    ensures
        0 <= skip_class_back(s, j, cl) <= j,
        skip_class_back(s, j, cl) > 0 ==> !in_class(cl, s[skip_class_back(s, j, cl) - 1]),
        forall|k: int| skip_class_back(s, j, cl) <= k < j ==> in_class(cl, #[trigger] s[k]),
    decreases j,
{
    if j > 0 && in_class(cl, s[j - 1]) {
        lemma_skip_class_back(s, j - 1, cl);
    }
}

/// Where `s` starts with `a` whitespace characters followed by one that is
/// not, and ends with a character that is not whitespace, trimming drops just
/// those `a` characters.
pub proof fn lemma_trim_at(s: Seq<char>, a: int)
    requires
        0 <= a < s.len(),
        forall|k: int| 0 <= k < a ==> is_ws(#[trigger] s[k]),
        !is_ws(s[a]),
        !is_ws(s[s.len() - 1]),
    ensures
        trim(s) == s.subrange(a, s.len() as int),
{
    lemma_skip_class(s, 0, CharClass::Whitespace);
    let i = skip_class(s, 0, CharClass::Whitespace);
    if i < a {
        assert(is_ws(s[i]));
    }
    if i > a {
        assert(in_class(CharClass::Whitespace, s[a]));
    }
    assert(i == a);
    let t = s.subrange(a, s.len() as int);
    assert(t[t.len() - 1] == s[s.len() - 1]);
    assert(skip_class_back(t, t.len() as int, CharClass::Whitespace) == t.len());
    assert(t.subrange(0, t.len() as int) =~= t);
}

/// `s` without its leading class characters.
pub open spec fn trim_start_class(s: Seq<char>, cl: CharClass) -> Seq<char> {
    s.subrange(skip_class(s, 0, cl), s.len() as int)
}

/// `s` without its trailing class characters.
pub open spec fn trim_end_class(s: Seq<char>, cl: CharClass) -> Seq<char> {
    s.subrange(0, skip_class_back(s, s.len() as int, cl))
}

/// `s` without leading and trailing class characters.
pub open spec fn trim_class(s: Seq<char>, cl: CharClass) -> Seq<char> {
    trim_end_class(trim_start_class(s, cl), cl)
}

/// `str::trim`.
pub open spec fn trim(s: Seq<char>) -> Seq<char> {
    trim_class(s, CharClass::Whitespace)
}

/// The characters `v[from..to]`.
pub fn slice_of(v: &Vec<char>, from: usize, to: usize) -> (r: Vec<char>)
    requires
        from <= to <= v.len(),
    ensures
        r@ == v@.subrange(from as int, to as int),
{
    let mut r: Vec<char> = Vec::new();
    let mut i = from;
    while i < to
        invariant
            from <= i <= to <= v.len(),
            r@ == v@.subrange(from as int, i as int),
        decreases to - i,
    {
        r.push(v[i]);
        i = i + 1;
        assert(r@ =~= v@.subrange(from as int, i as int));
    }
    r
}

/// Index of the first character at or after `i` that is not in the class.
pub fn skip_class_exec(v: &Vec<char>, i: usize, cl: CharClass) -> (r: usize)
    requires
        i <= v.len(),
    ensures
        r == skip_class(v@, i as int, cl),
{
    let mut j = i;
    while j < v.len() && in_class_exec(cl, v[j])
        invariant
            i <= j <= v.len(),
            skip_class(v@, j as int, cl) == skip_class(v@, i as int, cl),
        decreases v.len() - j,
    {
        j = j + 1;
    }
    j
}

/// Start of the run of class characters that ends at `j`.
pub fn skip_class_back_exec(v: &Vec<char>, j: usize, cl: CharClass) -> (r: usize)
    requires
        j <= v.len(),
    ensures
        r == skip_class_back(v@, j as int, cl),
{
    let mut k = j;
    while k > 0 && in_class_exec(cl, v[k - 1])
        invariant
            k <= j <= v.len(),
            skip_class_back(v@, k as int, cl) == skip_class_back(v@, j as int, cl),
        decreases k,
    {
        k = k - 1;
    }
    k
}

pub fn trim_start_class_exec(v: &Vec<char>, cl: CharClass) -> (r: Vec<char>)
    ensures
        r@ == trim_start_class(v@, cl),
{
    let a = skip_class_exec(v, 0, cl);
    proof {
        lemma_skip_class(v@, 0, cl);
    }
    slice_of(v, a, v.len())
}

pub fn trim_end_class_exec(v: &Vec<char>, cl: CharClass) -> (r: Vec<char>)
    ensures
        r@ == trim_end_class(v@, cl),
{
    let b = skip_class_back_exec(v, v.len(), cl);
    proof {
        lemma_skip_class_back(v@, v@.len() as int, cl);
    }
    slice_of(v, 0, b)
}

pub fn trim_class_exec(v: &Vec<char>, cl: CharClass) -> (r: Vec<char>)
    ensures
        r@ == trim_class(v@, cl),
{
    let t = trim_start_class_exec(v, cl);
    trim_end_class_exec(&t, cl)
}

/// `str::trim` on characters.
pub fn trim_exec(v: &Vec<char>) -> (r: Vec<char>)
    ensures
        r@ == trim(v@),
{
    trim_class_exec(v, CharClass::Whitespace)
}

/// `p` occurs in `s` at index `i`.
pub open spec fn matches_at(s: Seq<char>, p: Seq<char>, i: int) -> bool {
    0 <= i && i + p.len() <= s.len() && s.subrange(i, i + p.len()) == p
}

pub open spec fn starts_with(s: Seq<char>, p: Seq<char>) -> bool {
    matches_at(s, p, 0)
}

pub open spec fn ends_with(s: Seq<char>, p: Seq<char>) -> bool {
    p.len() <= s.len() && matches_at(s, p, s.len() - p.len())
}

/// First occurrence of `p` in `s` at or after `i`.
pub open spec fn find_from(s: Seq<char>, p: Seq<char>, i: int) -> Option<int>
    decreases s.len() + 1 - i,
{
    if i < 0 || i > s.len() {
        None
    } else if matches_at(s, p, i) {
        Some(i)
    } else {
        find_from(s, p, i + 1)
    }
}

/// `str::find`.
pub open spec fn find(s: Seq<char>, p: Seq<char>) -> Option<int> {
    find_from(s, p, 0)
}

pub open spec fn contains(s: Seq<char>, p: Seq<char>) -> bool {
    find(s, p) is Some
}

pub proof fn lemma_find_from(s: Seq<char>, p: Seq<char>, i: int)
    requires
        0 <= i,
    ensures
        find_from(s, p, i) matches Some(k) ==> i <= k && matches_at(s, p, k) && k + p.len()
            <= s.len(),
        forall|k: int|
            i <= k && (find_from(s, p, i) matches Some(m) ==> k < m) ==> !#[trigger] matches_at(
                s,
                p,
                k,
            ),
    decreases s.len() + 1 - i,
{
    if i <= s.len() && !matches_at(s, p, i) {
        lemma_find_from(s, p, i + 1);
    }
}

/// Whether `p` occurs in `v` at index `i`.
pub fn matches_at_exec(v: &Vec<char>, p: &Vec<char>, i: usize) -> (b: bool)
    ensures
        b == matches_at(v@, p@, i as int),
{
    if i > v.len() || p.len() > v.len() - i {
        return false;
    }
    let mut k: usize = 0;
    while k < p.len()
        invariant
            i + p.len() <= v.len(),
            k <= p.len(),
            forall|m: int| 0 <= m < k ==> v@[i + m] == p@[m],
        decreases p.len() - k,
    {
        if v[i + k] != p[k] {
            assert(v@.subrange(i as int, i + p.len())[k as int] != p@[k as int]);
            return false;
        }
        k = k + 1;
    }
    assert(v@.subrange(i as int, i + p.len()) =~= p@);
    true
}

pub fn starts_with_exec(v: &Vec<char>, p: &Vec<char>) -> (b: bool)
    ensures
        b == starts_with(v@, p@),
{
    matches_at_exec(v, p, 0)
}

pub fn ends_with_exec(v: &Vec<char>, p: &Vec<char>) -> (b: bool)
    ensures
        b == ends_with(v@, p@),
{
    if p.len() > v.len() {
        false
    } else {
        matches_at_exec(v, p, v.len() - p.len())
    }
}

/// First occurrence of `p` in `v` at or after `i`.
pub fn find_from_exec(v: &Vec<char>, p: &Vec<char>, i: usize) -> (r: Option<usize>)
    ensures
        r matches Some(k) ==> find_from(v@, p@, i as int) == Some(k as int),
        r is None ==> find_from(v@, p@, i as int) is None,
{
    let mut j = i;
    if j > v.len() {
        return None;
    }
    while j < v.len()
        invariant
            i <= j <= v.len(),
            find_from(v@, p@, j as int) == find_from(v@, p@, i as int),
        decreases v.len() - j,
    {
        if matches_at_exec(v, p, j) {
            return Some(j);
        }
        j = j + 1;
    }
    if matches_at_exec(v, p, j) {
        Some(j)
    } else {
        assert(find_from(v@, p@, j as int + 1) is None);
        None
    }
}

pub fn find_exec(v: &Vec<char>, p: &Vec<char>) -> (r: Option<usize>)
    ensures
        r matches Some(k) ==> find(v@, p@) == Some(k as int),
        r is None ==> find(v@, p@) is None,
{
    find_from_exec(v, p, 0)
}

pub fn contains_exec(v: &Vec<char>, p: &Vec<char>) -> (b: bool)
    ensures
        b == contains(v@, p@),
{
    find_exec(v, p).is_some()
}

/// Last index before `j` holding `c`.
pub open spec fn rfind_before(s: Seq<char>, c: char, j: int) -> Option<int>
    decreases j,
{
    if j <= 0 || j > s.len() {
        None
    } else if s[j - 1] == c {
        Some(j - 1)
    } else {
        rfind_before(s, c, j - 1)
    }
}

/// `str::rfind` with a character pattern.
pub open spec fn rfind_char(s: Seq<char>, c: char) -> Option<int> {
    rfind_before(s, c, s.len() as int)
}

pub proof fn lemma_rfind_before(s: Seq<char>, c: char, j: int)
    requires
        0 <= j <= s.len(),
    ensures
        rfind_before(s, c, j) matches Some(k) ==> 0 <= k < j && s[k] == c,
    decreases j,
{
    if j > 0 && s[j - 1] != c {
        lemma_rfind_before(s, c, j - 1);
    }
}

pub fn rfind_char_exec(v: &Vec<char>, c: char) -> (r: Option<usize>)
    ensures
        r matches Some(k) ==> rfind_char(v@, c) == Some(k as int) && k < v.len(),
        r is None ==> rfind_char(v@, c) is None,
{
    let mut j = v.len();
    while j > 0
        invariant
            j <= v.len(),
            rfind_before(v@, c, j as int) == rfind_char(v@, c),
        decreases j,
    {
        if v[j - 1] == c {
            return Some(j - 1);
        }
        j = j - 1;
    }
    None
}

/// Pieces of `s[start..]` separated by `c` (`str::split` with a character).
pub open spec fn split_from(s: Seq<char>, c: char, start: int) -> Seq<Seq<char>>
    decreases s.len() + 1 - start,
{
    if start < 0 || start > s.len() {
        seq![]
    } else {
        match find_from(s, seq![c], start) {
            None => seq![s.subrange(start, s.len() as int)],
            Some(i) => {
                proof {
                    lemma_find_from(s, seq![c], start);
                }
                seq![s.subrange(start, i)] + split_from(s, c, i + 1)
            },
        }
    }
}

pub open spec fn split_char(s: Seq<char>, c: char) -> Seq<Seq<char>> {
    split_from(s, c, 0)
}

/// The views of a vector of character vectors.
pub open spec fn views(v: Seq<Vec<char>>) -> Seq<Seq<char>> {
    v.map_values(|x: Vec<char>| x@)
}

pub fn split_char_exec(v: &Vec<char>, c: char) -> (r: Vec<Vec<char>>)
    ensures
        views(r@) == split_char(v@, c),
{
    let pat = vec![c];
    let mut r: Vec<Vec<char>> = Vec::new();
    let mut start: usize = 0;
    loop
        invariant
            start <= v.len(),
            pat@ == seq![c],
            split_char(v@, c) == views(r@) + split_from(v@, c, start as int),
        decreases v.len() + 1 - start,
    {
        let f = find_from_exec(v, &pat, start);
        proof {
            lemma_find_from(v@, seq![c], start as int);
        }
        match f {
            None => {
                let piece = slice_of(v, start, v.len());
                let ghost old_r = r@;
                r.push(piece);
                assert(views(r@) =~= views(old_r) + seq![piece@]);
                return r;
            },
            Some(i) => {
                let piece = slice_of(v, start, i);
                let ghost old_r = r@;
                r.push(piece);
                assert(views(r@) =~= views(old_r) + seq![piece@]);
                assert(split_from(v@, c, start as int) == seq![piece@] + split_from(
                    v@,
                    c,
                    i + 1,
                ));
                start = i + 1;
            },
        }
    }
}

/// The parts before and after the first `c` (`str::split_once` with a character).
pub open spec fn split_once(s: Seq<char>, c: char) -> Option<(Seq<char>, Seq<char>)> {
    match find(s, seq![c]) {
        None => None,
        Some(i) => Some((s.subrange(0, i), s.subrange(i + 1, s.len() as int))),
    }
}

pub fn split_once_exec(v: &Vec<char>, c: char) -> (r: Option<(Vec<char>, Vec<char>)>)
    ensures
        r matches Some((a, b)) ==> split_once(v@, c) == Some((a@, b@)),
        r is None ==> split_once(v@, c) is None,
{
    let pat = vec![c];
    assert(pat@ =~= seq![c]);
    let f = find_exec(v, &pat);
    proof {
        lemma_find_from(v@, seq![c], 0);
    }
    match f {
        None => None,
        Some(i) => {
            assert(find_from(v@, seq![c], 0) == Some(i as int));
            assert(i + 1 <= v.len());
            Some((slice_of(v, 0, i), slice_of(v, i + 1, v.len())))
        },
    }
}

/// A line without its terminating `'\n'` and an optional `'\r'` before it.
pub open spec fn strip_cr(l: Seq<char>) -> Seq<char> {
    if l.len() > 0 && l.last() == '\r' {
        l.drop_last()
    } else {
        l
    }
}

/// Lines of `s[start..]` (`str::lines`).
pub open spec fn lines_from(s: Seq<char>, start: int) -> Seq<Seq<char>>
    decreases s.len() + 1 - start,
{
    if start < 0 || start >= s.len() {
        seq![]
    } else {
        match find_from(s, seq!['\n'], start) {
            None => seq![s.subrange(start, s.len() as int)],
            Some(i) => {
                proof {
                    lemma_find_from(s, seq!['\n'], start);
                }
                seq![strip_cr(s.subrange(start, i))] + lines_from(s, i + 1)
            },
        }
    }
}

pub open spec fn lines(s: Seq<char>) -> Seq<Seq<char>> {
    lines_from(s, 0)
}

pub fn strip_cr_exec(l: Vec<char>) -> (r: Vec<char>)
    ensures
        r@ == strip_cr(l@),
{
    let mut l = l;
    let ghost l0 = l@;
    if l.len() > 0 && l[l.len() - 1] == '\r' {
        l.pop();
        assert(l@ =~= l0.drop_last());
    }
    l
}

pub fn lines_exec(v: &Vec<char>) -> (r: Vec<Vec<char>>)
    ensures
        views(r@) == lines(v@),
{
    let pat = vec!['\n'];
    let mut r: Vec<Vec<char>> = Vec::new();
    let mut start: usize = 0;
    while start < v.len()
        invariant
            start <= v.len(),
            pat@ == seq!['\n'],
            lines(v@) == views(r@) + lines_from(v@, start as int),
        decreases v.len() - start,
    {
        let f = find_from_exec(v, &pat, start);
        proof {
            lemma_find_from(v@, seq!['\n'], start as int);
        }
        match f {
            None => {
                let piece = slice_of(v, start, v.len());
                let ghost old_r = r@;
                r.push(piece);
                assert(views(r@) =~= views(old_r) + seq![piece@]);
                assert(lines_from(v@, v@.len() as int) =~= seq![]);
                return r;
            },
            Some(i) => {
                let piece = strip_cr_exec(slice_of(v, start, i));
                let ghost old_r = r@;
                r.push(piece);
                assert(views(r@) =~= views(old_r) + seq![piece@]);
                start = i + 1;
            },
        }
    }
    assert(views(r@) + seq![] =~= views(r@));
    r
}


/// `a` followed by `b`.
pub fn concat(a: &Vec<char>, b: &Vec<char>) -> (r: Vec<char>)
    ensures
        r@ == a@ + b@,
{
    let mut r: Vec<char> = Vec::new();
    let mut i: usize = 0;
    while i < a.len()
        invariant
            i <= a.len(),
            r@ == a@.take(i as int),
        decreases a.len() - i,
    {
        r.push(a[i]);
        i = i + 1;
        assert(r@ =~= a@.take(i as int));
    }
    let mut j: usize = 0;
    while j < b.len()
        invariant
            j <= b.len(),
            r@ == a@ + b@.take(j as int),
        decreases b.len() - j,
    {
        r.push(b[j]);
        j = j + 1;
        assert(r@ =~= a@ + b@.take(j as int));
    }
    assert(b@.take(b.len() as int) =~= b@);
    r
}

/// Appends `b` to `a`.
pub fn append(a: &mut Vec<char>, b: &Vec<char>)
    ensures
        final(a)@ == old(a)@ + b@,
{
    let ghost a0 = a@;
    let mut j: usize = 0;
    while j < b.len()
        invariant
            j <= b.len(),
            a@ == a0 + b@.take(j as int),
        decreases b.len() - j,
    {
        a.push(b[j]);
        j = j + 1;
        assert(a@ =~= a0 + b@.take(j as int));
    }
    assert(b@.take(b.len() as int) =~= b@);
}

/// Whether two character sequences are equal.
pub fn eq_chars(a: &Vec<char>, b: &Vec<char>) -> (r: bool)
    ensures
        r == (a@ == b@),
{
    if a.len() != b.len() {
        return false;
    }
    let mut i: usize = 0;
    while i < a.len()
        invariant
            a.len() == b.len(),
            i <= a.len(),
            forall|k: int| 0 <= k < i ==> a@[k] == b@[k],
        decreases a.len() - i,
    {
        if a[i] != b[i] {
            return false;
        }
        i = i + 1;
    }
    assert(a@ =~= b@);
    true
}

/// The characters of a string literal or slice (alias of `chars_of`).
pub fn lit(s: &str) -> (v: Vec<char>)
    ensures
        v@ == s@,
{
    chars_of(s)
}

/// Number of occurrences of `c` in `s`.
pub open spec fn count_char(s: Seq<char>, c: char) -> nat
    decreases s.len(),
{
    if s.len() == 0 {
        0
    } else {
        count_char(s.drop_last(), c) + if s.last() == c {
            1nat
        } else {
            0nat
        }
    }
}

pub fn count_char_exec(v: &Vec<char>, c: char) -> (n: usize)
    ensures
        n == count_char(v@, c),
        n <= v.len(),
{
    let mut n: usize = 0;
    let mut i: usize = 0;
    while i < v.len()
        invariant
            i <= v.len(),
            n == count_char(v@.take(i as int), c),
            n <= i,
        decreases v.len() - i,
    {
        assert(v@.take(i as int + 1).drop_last() =~= v@.take(i as int));
        if v[i] == c {
            n = n + 1;
        }
        i = i + 1;
    }
    assert(v@.take(v.len() as int) =~= v@);
    n
}

/// `s` with every trailing repetition of a non-empty `p` removed
/// (`str::trim_end_matches` with a string pattern).
pub open spec fn strip_suffixes(s: Seq<char>, p: Seq<char>) -> Seq<char>
    decreases s.len(),
{
    if p.len() > 0 && ends_with(s, p) {
        strip_suffixes(s.subrange(0, s.len() - p.len()), p)
    } else {
        s
    }
}

pub fn strip_suffixes_exec(v: &Vec<char>, p: &Vec<char>) -> (r: Vec<char>)
    ensures
        r@ == strip_suffixes(v@, p@),
{
    let mut end = v.len();
    let mut cur = slice_of(v, 0, end);
    assert(cur@ =~= v@);
    while p.len() > 0 && ends_with_exec(&cur, p)
        invariant
            end <= v.len(),
            cur@ == v@.subrange(0, end as int),
            strip_suffixes(cur@, p@) == strip_suffixes(v@, p@),
        decreases end,
    {
        let ghost c0 = cur@;
        end = end - p.len();
        cur = slice_of(v, 0, end);
        assert(cur@ =~= c0.subrange(0, c0.len() - p@.len()));
    }
    cur
}

/// Words of `s[i..]` separated by whitespace (`str::split_whitespace`).
pub open spec fn words_from(s: Seq<char>, i: int) -> Seq<Seq<char>>
    decreases s.len() + 1 - i,
{
    if i < 0 || i > s.len() {
        seq![]
    } else {
        let a = skip_class(s, i, CharClass::Whitespace);
        if a >= s.len() {
            seq![]
        } else {
            let b = word_end(s, a);
            proof {
                lemma_skip_class(s, i, CharClass::Whitespace);
                lemma_word_end(s, a);
            }
            seq![s.subrange(a, b)] + words_from(s, b)
        }
    }
}

/// First whitespace index at or after `i`.
pub open spec fn word_end(s: Seq<char>, i: int) -> int
    decreases s.len() - i,
{
    if 0 <= i < s.len() && !is_ws(s[i]) {
        word_end(s, i + 1)
    } else {
        i
    }
}

pub proof fn lemma_word_end(s: Seq<char>, i: int)
    requires
        0 <= i <= s.len(),
    ensures
        i <= word_end(s, i) <= s.len(),
        i < s.len() && !is_ws(s[i]) ==> i < word_end(s, i),
    decreases s.len() - i,
{
    if i < s.len() && !is_ws(s[i]) {
        lemma_word_end(s, i + 1);
    }
}

pub open spec fn words(s: Seq<char>) -> Seq<Seq<char>> {
    words_from(s, 0)
}

pub fn words_exec(v: &Vec<char>) -> (r: Vec<Vec<char>>)
    ensures
        views(r@) == words(v@),
{
    let mut r: Vec<Vec<char>> = Vec::new();
    let mut i: usize = 0;
    loop
        invariant
            i <= v.len(),
            words(v@) == views(r@) + words_from(v@, i as int),
        decreases v.len() + 1 - i,
    {
        let a = skip_class_exec(v, i, CharClass::Whitespace);
        proof {
            lemma_skip_class(v@, i as int, CharClass::Whitespace);
        }
        if a >= v.len() {
            assert(views(r@) + seq![] =~= views(r@));
            return r;
        }
        let mut b = a;
        while b < v.len() && !is_whitespace(v[b])
            invariant
                a <= b <= v.len(),
                word_end(v@, b as int) == word_end(v@, a as int),
            decreases v.len() - b,
        {
            b = b + 1;
        }
        proof {
            lemma_word_end(v@, a as int);
        }
        let w = slice_of(v, a, b);
        let ghost old_r = r@;
        r.push(w);
        assert(views(r@) =~= views(old_r) + seq![w@]);
        i = b;
    }
}

/// `s[start..]` with every occurrence of the non-empty `p` replaced by `t`
/// (`str::replace`).
pub open spec fn replace_from(s: Seq<char>, p: Seq<char>, t: Seq<char>, start: int) -> Seq<char>
    decreases s.len() + 1 - start,
{
    if start < 0 || start > s.len() || p.len() == 0 {
        s.subrange(start, s.len() as int)
    } else {
        match find_from(s, p, start) {
            None => s.subrange(start, s.len() as int),
            Some(i) => {
                proof {
                    lemma_find_from(s, p, start);
                }
                s.subrange(start, i) + t + replace_from(s, p, t, i + p.len())
            },
        }
    }
}

pub open spec fn replace_all(s: Seq<char>, p: Seq<char>, t: Seq<char>) -> Seq<char> {
    replace_from(s, p, t, 0)
}

pub fn replace_all_exec(v: &Vec<char>, p: &Vec<char>, t: &Vec<char>) -> (r: Vec<char>)
    requires
        p.len() > 0,
    ensures
        r@ == replace_all(v@, p@, t@),
{
    let mut r: Vec<char> = Vec::new();
    let mut start: usize = 0;
    loop
        invariant
            start <= v.len(),
            p.len() > 0,
            replace_all(v@, p@, t@) == r@ + replace_from(v@, p@, t@, start as int),
        decreases v.len() + 1 - start,
    {
        let f = find_from_exec(v, p, start);
        proof {
            lemma_find_from(v@, p@, start as int);
        }
        match f {
            None => {
                let rest = slice_of(v, start, v.len());
                append(&mut r, &rest);
                return r;
            },
            Some(i) => {
                let piece = slice_of(v, start, i);
                let ghost r0 = r@;
                append(&mut r, &piece);
                append(&mut r, t);
                assert(r@ == r0 + v@.subrange(start as int, i as int) + t@);
                start = i + p.len();
                assert(replace_all(v@, p@, t@) == r@ + replace_from(v@, p@, t@, start as int));
            },
        }
    }
}

/// Value of a run of ASCII decimal digits.
pub open spec fn digits_value(s: Seq<char>) -> int
    decreases s.len(),
{
    if s.len() == 0 {
        0
    } else {
        digits_value(s.drop_last()) * 10 + (s.last() as int - '0' as int)
    }
}

pub open spec fn is_digit(c: char) -> bool {
    '0' <= c <= '9'
}

pub open spec fn all_digits(s: Seq<char>) -> bool {
    forall|i: int| 0 <= i < s.len() ==> is_digit(#[trigger] s[i])
}

/// The unsigned integer that `str::parse` reads from `s`, if it is at most `max`:
/// an optional `+` followed by one or more ASCII digits.
pub open spec fn parse_uint(s: Seq<char>, max: int) -> Option<int> {
    let d = if s.len() > 0 && s[0] == '+' {
        s.drop_first()
    } else {
        s
    };
    if d.len() > 0 && all_digits(d) && digits_value(d) <= max {
        Some(digits_value(d))
    } else {
        None
    }
}

pub proof fn lemma_digits_value_grows(s: Seq<char>, k: int)
    requires
        all_digits(s),
        0 <= k <= s.len(),
    ensures
        digits_value(s.take(k)) <= digits_value(s),
        0 <= digits_value(s.take(k)),
    decreases s.len() - k,
{
    if k < s.len() {
        lemma_digits_value_grows(s, k + 1);
        assert(s.take(k + 1).drop_last() =~= s.take(k));
        lemma_digits_value_nonneg(s.take(k));
    } else {
        assert(s.take(k) =~= s);
        lemma_digits_value_nonneg(s);
    }
}

pub proof fn lemma_digits_value_nonneg(s: Seq<char>)
    requires
        all_digits(s),
    ensures
        0 <= digits_value(s),
    decreases s.len(),
{
    if s.len() > 0 {
        lemma_digits_value_nonneg(s.drop_last());
    }
}

/// Reads an unsigned integer of at most `max` as `str::parse` does.
pub fn parse_uint_exec(v: &Vec<char>, max: u64) -> (r: Option<u64>)
    ensures
        r matches Some(n) ==> parse_uint(v@, max as int) == Some(n as int),
        r is None ==> parse_uint(v@, max as int) is None,
{
    let start: usize = if v.len() > 0 && v[0] == '+' {
        1
    } else {
        0
    };
    let ghost d = if v@.len() > 0 && v@[0] == '+' {
        v@.drop_first()
    } else {
        v@
    };
    assert(d =~= v@.subrange(start as int, v.len() as int));
    if start >= v.len() {
        return None;
    }
    let mut value: u64 = 0;
    let mut i = start;
    while i < v.len()
        invariant
            start <= i <= v.len(),
            d == v@.subrange(start as int, v.len() as int),
            d == (if v@.len() > 0 && v@[0] == '+' {
                v@.drop_first()
            } else {
                v@
            }),
            value <= max,
            all_digits(d.take(i - start)),
            value == digits_value(d.take(i - start)),
        decreases v.len() - i,
    {
        let c = v[i];
        if !('0' <= c && c <= '9') {
            assert(d[i - start] == c);
            assert(!is_digit(d[i - start]));
            return None;
        }
        let digit = (c as u64) - ('0' as u64);
        assert(d.take(i - start + 1).drop_last() =~= d.take(i - start));
        assert(d.take(i - start + 1).last() == c);
        if digit > max || value > (max - digit) / 10 {
            assert(value * 10 + digit > max) by (nonlinear_arith)
                requires
                    digit > max || value > (max - digit) / 10,
                    digit <= 9,
                    value >= 0,
            ;
            proof {
                assert(digits_value(d.take(i - start + 1)) == value * 10 + digit);
                if all_digits(d) {
                    lemma_digits_value_grows(d, i - start + 1);
                }
            }
            return None;
        }
        assert(value * 10 + digit <= max) by (nonlinear_arith)
            requires
                digit <= max,
                value <= (max - digit) / 10,
                digit <= 9,
                value >= 0,
        ;
        let next = value * 10 + digit;
        assert(digits_value(d.take(i - start + 1)) == next);
        i = i + 1;
        assert(all_digits(d.take(i - start))) by {
            assert forall|k: int| 0 <= k < d.take(i - start).len() implies is_digit(
                #[trigger] d.take(i - start)[k],
            ) by {
                if k < i - start - 1 {
                    assert(d.take(i - start)[k] == d.take(i - start - 1)[k]);
                }
            }
        }
        value = next;
    }
    assert(d.take(i - start) =~= d);
    Some(value)
}

/// ASCII digit for a value below ten.
pub open spec fn digit_char(n: int) -> char {
    ((n + '0' as int) as u32) as char
}

/// Decimal notation of a natural number (what `to_string` gives for unsigned integers).
pub open spec fn dec(n: nat) -> Seq<char>
    decreases n,
{
    if n < 10 {
        seq![digit_char(n as int)]
    } else {
        dec(n / 10).push(digit_char((n % 10) as int))
    }
}

/// Decimal notation is a non-empty run of digits that reads back as the number.
pub proof fn lemma_dec_digits(n: nat)
    ensures
        dec(n).len() > 0,
        all_digits(dec(n)),
        digits_value(dec(n)) == n,
    decreases n,
{
    if n < 10 {
        assert(digit_char(n as int) as int == n + '0' as int);
        assert(dec(n).drop_last() =~= Seq::<char>::empty());
        assert(digits_value(dec(n).drop_last()) == 0);
        assert(dec(n).last() == digit_char(n as int));
        assert(digits_value(dec(n)) == digits_value(dec(n).drop_last()) * 10 + (dec(n).last() as int - '0' as int));
    } else {
        lemma_dec_digits(n / 10);
        let d = dec(n / 10);
        assert(digit_char((n % 10) as int) as int == (n % 10) + '0' as int);
        assert(dec(n).drop_last() =~= d);
        assert(dec(n).last() == digit_char((n % 10) as int));
        assert(digits_value(dec(n)) == digits_value(d) * 10 + (n % 10));
        assert((n / 10) * 10 + n % 10 == n);
        assert forall|i: int| 0 <= i < dec(n).len() implies is_digit(#[trigger] dec(n)[i]) by {
            if i < d.len() {
                assert(dec(n)[i] == d[i]);
            }
        }
    }
}

pub fn dec_exec(n: u64) -> (r: Vec<char>)
    ensures
        r@ == dec(n as nat),
    decreases n,
{
    let d = ((n % 10) as u32 + ('0' as u32)) as u8 as char;
    assert(d == digit_char((n % 10) as int));
    if n < 10 {
        vec![d]
    } else {
        let mut r = dec_exec(n / 10);
        r.push(d);
        r
    }
}

/// Whether `c` has the Unicode `Alphabetic` property (`char::is_alphabetic`).
pub uninterp spec fn alphabetic(c: char) -> bool;

/// Whether `c` is in a Unicode numeric category (`char::is_numeric`).
pub uninterp spec fn numeric(c: char) -> bool;

/// Calls `char::is_alphabetic`; the contract names its result `alphabetic(c)`.
#[verifier::external_body]
pub(crate) fn is_alphabetic(c: char) -> (b: bool)
    ensures
        b == alphabetic(c),
{
    c.is_alphabetic()
}

/// Calls `char::is_numeric`; the contract names its result `numeric(c)`.
#[verifier::external_body]
pub(crate) fn is_numeric(c: char) -> (b: bool)
    ensures
        b == numeric(c),
{
    c.is_numeric()
}

/// The Unicode lowercase mapping of a string (`str::to_lowercase`).
pub uninterp spec fn lowercase(s: Seq<char>) -> Seq<char>;

/// Calls `str::to_lowercase`; the contract names its result `lowercase(s@)`.
#[verifier::external_body]
pub(crate) fn to_lowercase(s: &str) -> (r: String)
    ensures
        r@ == lowercase(s@),
{
    s.to_lowercase()
}

/// The `Debug` rendering of a string slice (quoted and escaped).
pub uninterp spec fn debug_quoted(s: Seq<char>) -> Seq<char>;

/// Formats a string with `{:?}`; the contract names its result `debug_quoted(s@)`.
#[verifier::external_body]
pub(crate) fn debug_str(s: &str) -> (r: String)
    ensures
        r@ == debug_quoted(s@),
{
    format!("{:?}", s)
}

/// Parts joined by a separator (`[String]::join`).
pub open spec fn join(parts: Seq<Seq<char>>, sep: Seq<char>) -> Seq<char>
    decreases parts.len(),
{
    if parts.len() == 0 {
        seq![]
    } else if parts.len() == 1 {
        parts[0]
    } else {
        join(parts.drop_last(), sep) + sep + parts.last()
    }
}

pub fn join_exec(parts: &Vec<Vec<char>>, sep: &Vec<char>) -> (r: Vec<char>)
    ensures
        r@ == join(views(parts@), sep@),
{
    let mut r: Vec<char> = Vec::new();
    let mut i: usize = 0;
    while i < parts.len()
        invariant
            i <= parts.len(),
            r@ == join(views(parts@).take(i as int), sep@),
        decreases parts.len() - i,
    {
        assert(views(parts@).take(i as int + 1).drop_last() =~= views(parts@).take(i as int));
        if i > 0 {
            append(&mut r, sep);
        } else {
            assert(views(parts@).take(1) =~= seq![parts@[0]@]);
        }
        append(&mut r, &parts[i]);
        i = i + 1;
    }
    assert(views(parts@).take(parts.len() as int) =~= views(parts@));
    r
}

/// `a` sorts before `b` or equals it, as `str` orders: by code point, a proper
/// prefix first.
pub open spec fn lex_le(a: Seq<char>, b: Seq<char>) -> bool
    decreases a.len(),
{
    if a.len() == 0 {
        true
    } else if b.len() == 0 {
        false
    } else if a[0] != b[0] {
        a[0] < b[0]
    } else {
        lex_le(a.drop_first(), b.drop_first())
    }
}

/// `lex_le` as a relation.
pub open spec fn lex_leq() -> spec_fn(Seq<char>, Seq<char>) -> bool {
    |a: Seq<char>, b: Seq<char>| lex_le(a, b)
}

pub proof fn lemma_lex_refl(a: Seq<char>)
    ensures
        lex_le(a, a),
    decreases a.len(),
{
    if a.len() > 0 {
        lemma_lex_refl(a.drop_first());
    }
}

pub proof fn lemma_lex_antisym(a: Seq<char>, b: Seq<char>)
    requires
        lex_le(a, b),
        lex_le(b, a),
    ensures
        a == b,
    decreases a.len(),
{
    if a.len() > 0 && b.len() > 0 {
        if a[0] == b[0] {
            lemma_lex_antisym(a.drop_first(), b.drop_first());
            assert(a =~= seq![a[0]] + a.drop_first());
            assert(b =~= seq![b[0]] + b.drop_first());
        }
    }
}

pub proof fn lemma_lex_trans(a: Seq<char>, b: Seq<char>, c: Seq<char>)
    requires
        lex_le(a, b),
        lex_le(b, c),
    ensures
        lex_le(a, c),
    decreases a.len(),
{
    if a.len() > 0 && b.len() > 0 && c.len() > 0 {
        if a[0] == b[0] && b[0] == c[0] {
            lemma_lex_trans(a.drop_first(), b.drop_first(), c.drop_first());
        } else if a[0] != b[0] && b[0] != c[0] && a[0] == c[0] {
            assert(a[0] < b[0] && b[0] < c[0]);
        }
    }
}

pub proof fn lemma_lex_total(a: Seq<char>, b: Seq<char>)
    ensures
        lex_le(a, b) || lex_le(b, a),
    decreases a.len(),
{
    if a.len() > 0 && b.len() > 0 {
        if a[0] == b[0] {
            lemma_lex_total(a.drop_first(), b.drop_first());
        }
    }
}

/// `lex_le` is a total order.
pub proof fn lemma_lex_total_ordering()
    ensures
        vstd::relations::total_ordering(lex_leq()),
{
    assert forall|a: Seq<char>| #[trigger] lex_leq()(a, a) by {
        lemma_lex_refl(a);
    }
    assert forall|a: Seq<char>, b: Seq<char>|
        #[trigger] lex_leq()(a, b) && #[trigger] lex_leq()(b, a) implies a == b by {
        lemma_lex_antisym(a, b);
    }
    assert forall|a: Seq<char>, b: Seq<char>, c: Seq<char>|
        #[trigger] lex_leq()(a, b) && #[trigger] lex_leq()(b, c) implies lex_leq()(a, c) by {
        lemma_lex_trans(a, b, c);
    }
    assert forall|a: Seq<char>, b: Seq<char>|
        #[trigger] lex_leq()(a, b) || #[trigger] lex_leq()(b, a) by {
        lemma_lex_total(a, b);
    }
}

pub fn lex_le_exec(a: &Vec<char>, b: &Vec<char>) -> (r: bool)
    ensures
        r == lex_le(a@, b@),
{
    let mut i: usize = 0;
    assert(a@.skip(0) =~= a@ && b@.skip(0) =~= b@);
    while i < a.len() && i < b.len() && a[i] == b[i]
        invariant
            i <= a.len(),
            i <= b.len(),
            lex_le(a@.skip(i as int), b@.skip(i as int)) == lex_le(a@, b@),
        decreases a.len() - i,
    {
        assert(a@.skip(i as int).drop_first() =~= a@.skip(i as int + 1));
        assert(b@.skip(i as int).drop_first() =~= b@.skip(i as int + 1));
        i = i + 1;
    }
    if i == a.len() {
        true
    } else if i == b.len() {
        false
    } else {
        a[i] < b[i]
    }
}

/// The strings in `lex_le` order (`<[String]>::sort`).
pub fn sort_strings(v: Vec<Vec<char>>) -> (r: Vec<Vec<char>>)
    ensures
        views(r@) == views(v@).sort_by(lex_leq()),
{
    proof {
        lemma_lex_total_ordering();
    }
    broadcast use vstd::multiset::group_multiset_axioms, vstd::seq_lib::group_to_multiset_ensures;

    let ghost all = views(v@);
    let mut v = v;
    let mut r: Vec<Vec<char>> = Vec::new();
    assert(views(r@) =~= Seq::<Seq<char>>::empty());
    while v.len() > 0
        invariant
            vstd::relations::total_ordering(lex_leq()),
            vstd::relations::sorted_by(views(r@), lex_leq()),
            views(r@).to_multiset().add(views(v@).to_multiset()) == all.to_multiset(),
        decreases v.len(),
    {
        let ghost vv = views(v@);
        let ghost rv = views(r@);
        let x = v.pop().unwrap();
        proof {
            assert(vv =~= views(v@).push(x@));
            vstd::seq_lib::to_multiset_build(views(v@), x@);
        }
        let mut i: usize = 0;
        while i < r.len() && lex_le_exec(&r[i], &x)
            invariant
                i <= r.len(),
                views(r@) == rv,
                forall|j: int| 0 <= j < i ==> lex_le(#[trigger] rv[j], x@),
            decreases r.len() - i,
        {
            i = i + 1;
        }
        proof {
            if i < r.len() {
                lemma_lex_total(r@[i as int]@, x@);
                assert forall|j: int| i <= j < rv.len() implies lex_le(x@, #[trigger] rv[j]) by {
                    if j > i {
                        assert(lex_leq()(rv[i as int], rv[j]));
                        lemma_lex_trans(x@, rv[i as int], rv[j]);
                    }
                }
            }
        }
        r.insert(i, x);
        proof {
            assert(views(r@) =~= rv.insert(i as int, x@));
            vstd::seq_lib::to_multiset_insert(rv, i as int, x@);
            let nv = views(r@);
            assert forall|a: int, b: int| 0 <= a < b < nv.len() implies #[trigger] lex_leq()(
                nv[a],
                nv[b],
            ) by {
                if a < i && b < i {
                    assert(lex_leq()(rv[a], rv[b]));
                } else if a < i && b == i {
                } else if a < i && b > i {
                    assert(lex_leq()(rv[a], rv[b - 1]));
                } else if a == i {
                } else {
                    assert(lex_leq()(rv[a - 1], rv[b - 1]));
                }
            }
        }
    }
    proof {
        assert(views(v@) =~= Seq::<Seq<char>>::empty());
        assert(views(v@).to_multiset() =~= vstd::multiset::Multiset::<Seq<char>>::empty());
        assert(views(r@).to_multiset() =~= all.to_multiset());
        all.lemma_sort_by_ensures(lex_leq());
        vstd::seq_lib::lemma_sorted_unique(views(r@), all.sort_by(lex_leq()), lex_leq());
    }
    r
}

/// The number of bytes of a character in UTF-8.
pub open spec fn utf8_len(c: char) -> nat {
    let u = c as u32;
    if u < 0x80 {
        1
    } else if u < 0x800 {
        2
    } else if u < 0x10000 {
        3
    } else {
        4
    }
}

/// The number of bytes of a text in UTF-8 (`str::len`).
pub open spec fn utf8_size(s: Seq<char>) -> nat
    decreases s.len(),
{
    if s.len() == 0 {
        0
    } else {
        utf8_size(s.drop_last()) + utf8_len(s.last())
    }
}

pub proof fn lemma_utf8_size_prefix(s: Seq<char>, j: int)
    requires
        0 <= j <= s.len(),
    ensures
        utf8_size(s.take(j)) <= utf8_size(s),
    decreases s.len() - j,
{
    if j < s.len() {
        lemma_utf8_size_prefix(s, j + 1);
        assert(s.take(j + 1).drop_last() =~= s.take(j));
    } else {
        assert(s.take(j) =~= s);
    }
}

/// The UTF-8 size of a text, where it is at most `cap`.
pub fn utf8_size_upto(v: &Vec<char>, cap: usize) -> (r: Option<usize>)
    ensures
        r matches Some(n) ==> n == utf8_size(v@) && n <= cap,
        r is None ==> utf8_size(v@) > cap,
{
    let mut sum: usize = 0;
    let mut i: usize = 0;
    while i < v.len()
        invariant
            i <= v.len(),
            sum == utf8_size(v@.take(i as int)),
            sum <= cap,
        decreases v.len() - i,
    {
        assert(v@.take(i as int + 1).drop_last() =~= v@.take(i as int));
        let u = v[i] as u32;
        let l: usize = if u < 0x80 {
            1
        } else if u < 0x800 {
            2
        } else if u < 0x10000 {
            3
        } else {
            4
        };
        if l > cap - sum {
            proof {
                lemma_utf8_size_prefix(v@, i as int + 1);
            }
            return None;
        }
        sum = sum + l;
        i = i + 1;
    }
    assert(v@.take(v.len() as int) =~= v@);
    Some(sum)
}

} // verus!
