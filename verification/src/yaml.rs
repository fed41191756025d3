//! A YAML document tree (the values that compose files and Traefik configs are
//! built from), its mathematical model, and the operations on it: equality,
//! copying, keyed insertion, dotted-path updates and deep merging.
use vstd::prelude::*;
use vstd::string::StrSliceExecFns;
use crate::text::{chars_of, find, find_exec, lemma_find_from, slice_of, string_of};
use serde_yaml::value::{Tag, TaggedValue};
use serde_yaml::Value;

verus! {

/// A YAML tag (`!Name`); never empty.
pub struct YamlTag {
    text: String,
}

impl View for YamlTag {
    type V = Seq<char>;

    closed spec fn view(&self) -> Seq<char> {
        self.text@
    }
}

impl YamlTag {
    #[verifier::type_invariant]
    spec fn non_empty(self) -> bool {
        self.text@.len() > 0
    }

    /// A tag with the given text; `None` for the empty text, which YAML cannot write.
    pub fn new(text: String) -> (r: Option<YamlTag>)
        ensures
            r matches Some(t) ==> t@ == text@,
            r is None <==> text@.len() == 0,
    {
        if text.as_str().unicode_len() == 0 {
            None
        } else {
            Some(YamlTag { text })
        }
    }

    pub fn as_string(&self) -> (r: String)
        ensures
            r@ == self@,
            r@.len() > 0,
    {
        proof {
            use_type_invariant(self);
        }
        self.text.clone()
    }
}

/// A YAML value.  Numbers keep the text that YAML writes for them.
pub enum Yaml {
    Null,
    Bool(bool),
    Number(String),
    Str(String),
    Sequence(Vec<Yaml>),
    Mapping(Vec<YamlEntry>),
    Tagged(YamlTag, Box<Yaml>),
}

/// One `key: value` entry of a mapping.
pub struct YamlEntry {
    pub key: Yaml,
    pub value: Yaml,
}

/// The mathematical model of a YAML value: mappings are sequences of
/// key/value pairs in document order.
pub enum YamlV {
    Null,
    Bool(bool),
    Number(Seq<char>),
    Str(Seq<char>),
    Sequence(Seq<YamlV>),
    Mapping(Seq<(YamlV, YamlV)>),
    Tagged(Seq<char>, Box<YamlV>),
}

impl Yaml {
    pub open spec fn model(self) -> YamlV
        decreases self, 0int,
    {
        match self {
            Yaml::Null => YamlV::Null,
            Yaml::Bool(b) => YamlV::Bool(b),
            Yaml::Number(n) => YamlV::Number(n@),
            Yaml::Str(s) => YamlV::Str(s@),
            Yaml::Sequence(v) => YamlV::Sequence(items_prefix(v@, v@.len() as int)),
            Yaml::Mapping(v) => YamlV::Mapping(entries_prefix(v@, v@.len() as int)),
            Yaml::Tagged(t, b) => YamlV::Tagged(t@, Box::new(b.model())),
        }
    }
}

/// Models of the first `n` values.
pub open spec fn items_prefix(v: Seq<Yaml>, n: int) -> Seq<YamlV>
    decreases v, n,
{
    if n <= 0 || n > v.len() {
        seq![]
    } else {
        items_prefix(v, n - 1).push(v[n - 1].model())
    }
}

/// Models of the first `n` mapping entries.
pub open spec fn entries_prefix(v: Seq<YamlEntry>, n: int) -> Seq<(YamlV, YamlV)>
    decreases v, n,
{
    if n <= 0 || n > v.len() {
        seq![]
    } else {
        entries_prefix(v, n - 1).push((v[n - 1].key.model(), v[n - 1].value.model()))
    }
}

/// The model of a list of mapping entries.
pub open spec fn entries_model(v: Seq<YamlEntry>) -> Seq<(YamlV, YamlV)> {
    Seq::new(v.len() as nat, |i: int| (v[i].key.model(), v[i].value.model()))
}

/// The model of a list of values.
pub open spec fn items_model(v: Seq<Yaml>) -> Seq<YamlV> {
    Seq::new(v.len() as nat, |i: int| v[i].model())
}

proof fn lemma_entries_prefix(v: Seq<YamlEntry>, n: int)
    requires
        0 <= n <= v.len(),
    ensures
        entries_prefix(v, n) == entries_model(v).take(n),
    decreases n,
{
    if n > 0 {
        lemma_entries_prefix(v, n - 1);
    }
    assert(entries_prefix(v, n) =~= entries_model(v).take(n));
}

proof fn lemma_items_prefix(v: Seq<Yaml>, n: int)
    requires
        0 <= n <= v.len(),
    ensures
        items_prefix(v, n) == items_model(v).take(n),
    decreases n,
{
    if n > 0 {
        lemma_items_prefix(v, n - 1);
    }
    assert(items_prefix(v, n) =~= items_model(v).take(n));
}

pub proof fn lemma_map_model(v: Vec<YamlEntry>)
    ensures
        Yaml::Mapping(v).model() == YamlV::Mapping(entries_model(v@)),
{
    lemma_entries_prefix(v@, v@.len() as int);
    assert(entries_model(v@).take(v@.len() as int) =~= entries_model(v@));
}

pub proof fn lemma_seq_model(v: Vec<Yaml>)
    ensures
        Yaml::Sequence(v).model() == YamlV::Sequence(items_model(v@)),
{
    lemma_items_prefix(v@, v@.len() as int);
    assert(items_model(v@).take(v@.len() as int) =~= items_model(v@));
}

/// A string scalar.
pub fn str_value(s: &str) -> (r: Yaml)
    ensures
        r.model() == YamlV::Str(s@),
{
    Yaml::Str(s.to_owned())
}

/// An entry whose key is a string.
pub fn str_entry(key: &str, value: Yaml) -> (r: YamlEntry)
    ensures
        r.key.model() == YamlV::Str(key@),
        r.value.model() == value.model(),
{
    YamlEntry { key: Yaml::Str(key.to_owned()), value }
}

/// A mapping of the given entries.
pub fn mapping(v: Vec<YamlEntry>) -> (r: Yaml)
    ensures
        r.model() == YamlV::Mapping(entries_model(v@)),
{
    proof {
        lemma_map_model(v);
    }
    Yaml::Mapping(v)
}

/// A sequence of the given values.
pub fn sequence(v: Vec<Yaml>) -> (r: Yaml)
    ensures
        r.model() == YamlV::Sequence(items_model(v@)),
{
    proof {
        lemma_seq_model(v);
    }
    Yaml::Sequence(v)
}

/// Appends entries to a list of entries.
pub fn push_entries(es: &mut Vec<YamlEntry>, more: Vec<YamlEntry>)
    ensures
        entries_model(final(es)@) == entries_model(old(es)@) + entries_model(more@),
{
    let ghost a = entries_model(es@);
    let ghost b = entries_model(more@);
    let mut more = more;
    es.append(&mut more);
    assert(entries_model(es@) =~= a + b);
}

/// Whether two values are equal.
#[verifier::loop_isolation(false)]
pub fn yaml_eq(a: &Yaml, b: &Yaml) -> (r: bool)
    ensures
        r == (a.model() == b.model()),
    decreases a,
{
    match a {
        Yaml::Null => match b {
            Yaml::Null => true,
            _ => false,
        },
        Yaml::Bool(x) => match b {
            Yaml::Bool(y) => *x == *y,
            _ => false,
        },
        Yaml::Number(x) => match b {
            Yaml::Number(y) => *x == *y,
            _ => false,
        },
        Yaml::Str(x) => match b {
            Yaml::Str(y) => *x == *y,
            _ => false,
        },
        Yaml::Sequence(x) => match b {
            Yaml::Sequence(y) => {
                proof {
                    lemma_seq_model(*x);
                    lemma_seq_model(*y);
                }
                if x.len() != y.len() {
                    assert(items_model(x@).len() != items_model(y@).len());
                    return false;
                }
                let mut i: usize = 0;
                while i < x.len()
                    invariant
                        x.len() == y.len(),
                        i <= x.len(),
                        forall|k: int| 0 <= k < i ==> x@[k].model() == y@[k].model(),
                    decreases x.len() - i,
                {
                    assert(decreases_to!(*a => *x));
                    assert(decreases_to!(*x => x@));
                    assert(decreases_to!(x@ => x@[i as int]));
                    if !yaml_eq(&x[i], &y[i]) {
                        assert(items_model(x@)[i as int] != items_model(y@)[i as int]);
                        return false;
                    }
                    i = i + 1;
                }
                assert(items_model(x@) =~= items_model(y@));
                true
            },
            _ => false,
        },
        Yaml::Mapping(x) => match b {
            Yaml::Mapping(y) => {
                proof {
                    lemma_map_model(*x);
                    lemma_map_model(*y);
                }
                if x.len() != y.len() {
                    assert(entries_model(x@).len() != entries_model(y@).len());
                    return false;
                }
                let mut i: usize = 0;
                while i < x.len()
                    invariant
                        x.len() == y.len(),
                        i <= x.len(),
                        forall|k: int|
                            0 <= k < i ==> x@[k].key.model() == y@[k].key.model()
                                && x@[k].value.model() == y@[k].value.model(),
                    decreases x.len() - i,
                {
                    assert(decreases_to!(*a => *x));
                    assert(decreases_to!(*x => x@));
                    assert(decreases_to!(x@ => x@[i as int]));
                    if !yaml_eq(&x[i].key, &y[i].key) || !yaml_eq(&x[i].value, &y[i].value) {
                        assert(entries_model(x@)[i as int] != entries_model(y@)[i as int]);
                        return false;
                    }
                    i = i + 1;
                }
                assert(entries_model(x@) =~= entries_model(y@));
                true
            },
            _ => false,
        },
        Yaml::Tagged(t, x) => match b {
            Yaml::Tagged(u, y) => {
                let ts = t.as_string();
                let us = u.as_string();
                ts == us && yaml_eq(x, y)
            },
            _ => false,
        },
    }
}

/// A copy of a value.
#[verifier::loop_isolation(false)]
pub fn yaml_copy(a: &Yaml) -> (r: Yaml)
    ensures
        r.model() == a.model(),
    decreases a,
{
    match a {
        Yaml::Null => Yaml::Null,
        Yaml::Bool(x) => Yaml::Bool(*x),
        Yaml::Number(x) => Yaml::Number(x.clone()),
        Yaml::Str(x) => Yaml::Str(x.clone()),
        Yaml::Sequence(x) => {
            let mut out: Vec<Yaml> = Vec::new();
            let mut i: usize = 0;
            while i < x.len()
                invariant
                    i <= x.len(),
                    out.len() == i,
                    forall|k: int| 0 <= k < i ==> out@[k].model() == x@[k].model(),
                decreases x.len() - i,
            {
                assert(decreases_to!(*a => *x));
                assert(decreases_to!(*x => x@));
                assert(decreases_to!(x@ => x@[i as int]));
                out.push(yaml_copy(&x[i]));
                i = i + 1;
            }
            proof {
                lemma_seq_model(*x);
                lemma_seq_model(out);
                assert(items_model(out@) =~= items_model(x@));
            }
            Yaml::Sequence(out)
        },
        Yaml::Mapping(x) => {
            let mut out: Vec<YamlEntry> = Vec::new();
            let mut i: usize = 0;
            while i < x.len()
                invariant
                    i <= x.len(),
                    out.len() == i,
                    forall|k: int|
                        0 <= k < i ==> out@[k].key.model() == x@[k].key.model()
                            && out@[k].value.model() == x@[k].value.model(),
                decreases x.len() - i,
            {
                assert(decreases_to!(*x => x@));
                assert(decreases_to!(x@ => x@[i as int]));
                assert(decreases_to!(*a => *x));
                assert(decreases_to!(*x => x@));
                assert(decreases_to!(x@ => x@[i as int]));
                let k = yaml_copy(&x[i].key);
                let v = yaml_copy(&x[i].value);
                out.push(YamlEntry { key: k, value: v });
                i = i + 1;
            }
            proof {
                lemma_map_model(*x);
                lemma_map_model(out);
                assert(entries_model(out@) =~= entries_model(x@));
            }
            Yaml::Mapping(out)
        },
        Yaml::Tagged(t, x) => {
            let ts = t.as_string();
            let tag = YamlTag::new(ts);
            match tag {
                Some(tag) => Yaml::Tagged(tag, Box::new(yaml_copy(x))),
                None => Yaml::Null,
            }
        },
    }
}


/// Index of the first entry whose key is `k`.
pub open spec fn key_pos_from(m: Seq<(YamlV, YamlV)>, k: YamlV, i: int) -> Option<int>
    decreases m.len() - i,
{
    if i < 0 || i >= m.len() {
        None
    } else if m[i].0 == k {
        Some(i)
    } else {
        key_pos_from(m, k, i + 1)
    }
}

pub open spec fn key_pos(m: Seq<(YamlV, YamlV)>, k: YamlV) -> Option<int> {
    key_pos_from(m, k, 0)
}

/// The value under key `k` in a mapping (the first entry with that key).
pub open spec fn map_get(m: Seq<(YamlV, YamlV)>, k: YamlV) -> Option<YamlV> {
    match key_pos(m, k) {
        Some(i) => Some(m[i].1),
        None => None,
    }
}

/// Insertion into a mapping: an existing key keeps its place and gets the new value;
/// a new key goes to the end.
pub open spec fn map_insert(m: Seq<(YamlV, YamlV)>, k: YamlV, v: YamlV) -> Seq<(YamlV, YamlV)> {
    match key_pos(m, k) {
        Some(i) => m.update(i, (m[i].0, v)),
        None => m.push((k, v)),
    }
}

pub proof fn lemma_key_pos_from(m: Seq<(YamlV, YamlV)>, k: YamlV, i: int)
    requires
        0 <= i,
    ensures
        key_pos_from(m, k, i) matches Some(j) ==> i <= j < m.len() && m[j].0 == k,
        key_pos_from(m, k, i) is None ==> forall|j: int| i <= j < m.len() ==> m[j].0 != k,
        forall|j: int|
            i <= j < m.len() && (key_pos_from(m, k, i) matches Some(p) ==> j < p) ==> m[j].0 != k,
    decreases m.len() - i,
{
    if i < m.len() && m[i].0 != k {
        lemma_key_pos_from(m, k, i + 1);
    }
}

/// Inserting under one key leaves what another key reads.
pub proof fn lemma_map_get_insert_other(m: Seq<(YamlV, YamlV)>, k: YamlV, v: YamlV, k2: YamlV)
    requires
        k != k2,
    ensures
        map_get(map_insert(m, k, v), k2) == map_get(m, k2),
{
    let m2 = map_insert(m, k, v);
    lemma_key_pos_from(m, k, 0);
    lemma_key_pos_from(m, k2, 0);
    lemma_key_pos_from(m2, k2, 0);
    match key_pos(m, k) {
        Some(i) => {
            assert(m2.len() == m.len());
            assert forall|j: int| 0 <= j < m.len() implies m2[j].0 == m[j].0 by {}
            match key_pos(m, k2) {
                Some(p) => {
                    assert(m2[p].0 == k2);
                    if key_pos(m2, k2) != Some(p) {
                        match key_pos(m2, k2) {
                            Some(q) => {
                                assert(m[q].0 == k2);
                            },
                            None => {},
                        }
                    }
                    assert(p != i);
                    assert(m2[p] == m[p]);
                },
                None => {
                    match key_pos(m2, k2) {
                        Some(q) => {
                            assert(m[q].0 == k2);
                        },
                        None => {},
                    }
                },
            }
        },
        None => {
            assert(m2 == m.push((k, v)));
            match key_pos(m, k2) {
                Some(p) => {
                    assert(m2[p] == m[p]);
                    if key_pos(m2, k2) != Some(p) {
                        match key_pos(m2, k2) {
                            Some(q) => {
                                assert(q < p);
                                assert(m2[q] == m[q]);
                            },
                            None => {},
                        }
                    }
                },
                None => {
                    match key_pos(m2, k2) {
                        Some(q) => {
                            if q < m.len() {
                                assert(m2[q] == m[q]);
                            }
                        },
                        None => {},
                    }
                },
            }
        },
    }
}

/// Reading a key right after inserting it gives the inserted value.
pub proof fn lemma_map_get_insert(m: Seq<(YamlV, YamlV)>, k: YamlV, v: YamlV)
    ensures
        map_get(map_insert(m, k, v), k) == Some(v),
{
    lemma_key_pos_from(m, k, 0);
    let m2 = map_insert(m, k, v);
    lemma_key_pos_from(m2, k, 0);
    match key_pos(m, k) {
        Some(i) => {
            assert(m2[i].0 == k);
            if key_pos(m2, k) != Some(i) {
                match key_pos(m2, k) {
                    Some(j) => {
                        assert(j < i);
                        assert(m2[j] == m[j]);
                    },
                    None => {},
                }
            }
        },
        None => {
            assert(m2[m.len() as int].0 == k);
            match key_pos(m2, k) {
                Some(j) => {
                    if j < m.len() {
                        assert(m2[j] == m[j]);
                    }
                },
                None => {},
            }
        },
    }
}

/// Position of the first entry whose key equals `k`.
pub fn find_key(entries: &Vec<YamlEntry>, k: &Yaml) -> (r: Option<usize>)
    ensures
        r matches Some(i) ==> key_pos(entries_model(entries@), k.model()) == Some(i as int) && i
            < entries.len(),
        r is None ==> key_pos(entries_model(entries@), k.model()) is None,
{
    let ghost m = entries_model(entries@);
    let mut i: usize = 0;
    while i < entries.len()
        invariant
            i <= entries.len(),
            m == entries_model(entries@),
            key_pos_from(m, k.model(), i as int) == key_pos(m, k.model()),
        decreases entries.len() - i,
    {
        if yaml_eq(&entries[i].key, k) {
            return Some(i);
        }
        i = i + 1;
    }
    None
}

/// Inserts `value` under `key` (see `map_insert`).
pub fn map_insert_exec(entries: &mut Vec<YamlEntry>, key: Yaml, value: Yaml)
    ensures
        entries_model(final(entries)@) == map_insert(
            entries_model(old(entries)@),
            key.model(),
            value.model(),
        ),
{
    let ghost m0 = entries_model(entries@);
    match find_key(entries, &key) {
        Some(i) => {
            let old_entry = entries.remove(i);
            entries.insert(i, YamlEntry { key: old_entry.key, value });
            assert(entries_model(entries@) =~= m0.update(i as int, (m0[i as int].0, value.model())));
        },
        None => {
            entries.push(YamlEntry { key, value });
            assert(entries_model(entries@) =~= m0.push((key.model(), value.model())));
        },
    }
}

/// The value at a dotted path such as `tls.certResolver`, if every step is a mapping
/// holding the next key.
pub open spec fn get_nested(y: YamlV, path: Seq<char>) -> Option<YamlV>
    decreases path.len(),
{
    match y {
        YamlV::Mapping(m) => match find(path, seq!['.']) {
            None => map_get(m, YamlV::Str(path)),
            Some(i) => {
                proof {
                    lemma_find_from(path, seq!['.'], 0);
                }
                match map_get(m, YamlV::Str(path.subrange(0, i))) {
                    Some(child) => get_nested(child, path.subrange(i + 1, path.len() as int)),
                    None => None,
                }
            },
        },
        _ => None,
    }
}

/// Setting a value at a dotted path: intermediate mappings are created as needed;
/// the flag is false (and nothing below the failing node changes) where the path
/// meets a node that is not a mapping.
pub open spec fn set_nested(y: YamlV, path: Seq<char>, v: YamlV) -> (YamlV, bool)
    decreases path.len(),
{
    match y {
        YamlV::Mapping(m) => match find(path, seq!['.']) {
            None => (YamlV::Mapping(map_insert(m, YamlV::Str(path), v)), true),
            Some(i) => {
                proof {
                    lemma_find_from(path, seq!['.'], 0);
                }
                let key = YamlV::Str(path.subrange(0, i));
                let child = match map_get(m, key) {
                    Some(c) => c,
                    None => YamlV::Mapping(seq![]),
                };
                let (nc, ok) = set_nested(child, path.subrange(i + 1, path.len() as int), v);
                (YamlV::Mapping(map_insert(m, key, nc)), ok)
            },
        },
        _ => (y, false),
    }
}

/// Reading a dotted path right after a successful write there gives the written value.
pub proof fn lemma_set_then_get(y: YamlV, path: Seq<char>, v: YamlV)
    requires
        set_nested(y, path, v).1,
    ensures
        get_nested(set_nested(y, path, v).0, path) == Some(v),
    decreases path.len(),
{
    match y {
        YamlV::Mapping(m) => {
            lemma_find_from(path, seq!['.'], 0);
            match find(path, seq!['.']) {
                None => {
                    lemma_map_get_insert(m, YamlV::Str(path), v);
                },
                Some(i) => {
                    let key = YamlV::Str(path.subrange(0, i));
                    let child = match map_get(m, key) {
                        Some(c) => c,
                        None => YamlV::Mapping(seq![]),
                    };
                    let rest = path.subrange(i + 1, path.len() as int);
                    lemma_set_then_get(child, rest, v);
                    lemma_map_get_insert(m, key, set_nested(child, rest, v).0);
                },
            }
        },
        _ => {},
    }
}

/// The first segment of a dotted path: up to the first `.`, or all of it.
pub open spec fn first_segment(path: Seq<char>) -> Seq<char> {
    match find(path, seq!['.']) {
        Some(i) => path.subrange(0, i),
        None => path,
    }
}

/// Writing at a dotted path can succeed: `y` is a mapping, and each node that
/// already exists along the path above the last segment is a mapping too
/// (missing ones are created).
pub open spec fn path_writable(y: YamlV, path: Seq<char>) -> bool
    decreases path.len(),
{
    match y {
        YamlV::Mapping(m) => match find(path, seq!['.']) {
            None => true,
            Some(i) => {
                proof {
                    lemma_find_from(path, seq!['.'], 0);
                }
                match map_get(m, YamlV::Str(path.subrange(0, i))) {
                    Some(child) => path_writable(child, path.subrange(i + 1, path.len() as int)),
                    None => true,
                }
            },
        },
        _ => false,
    }
}

/// Two dotted paths part ways: at some position both have a segment, and the
/// segments differ, with all earlier segments equal.
pub open spec fn paths_diverge(p: Seq<char>, q: Seq<char>) -> bool
    decreases p.len(),
{
    if first_segment(p) != first_segment(q) {
        true
    } else {
        match (find(p, seq!['.']), find(q, seq!['.'])) {
            (Some(i), Some(j)) => {
                proof {
                    lemma_find_from(p, seq!['.'], 0);
                }
                paths_diverge(p.subrange(i + 1, p.len() as int), q.subrange(j + 1, q.len() as int))
            },
            _ => false,
        }
    }
}

/// Writing at a dotted path succeeds exactly where the path is writable; a
/// failed write changes nothing.
pub proof fn lemma_set_nested_outcome(y: YamlV, path: Seq<char>, v: YamlV)
    ensures
        set_nested(y, path, v).1 == path_writable(y, path),
        !set_nested(y, path, v).1 ==> set_nested(y, path, v).0 == y,
    decreases path.len(),
{
    match y {
        YamlV::Mapping(m) => {
            lemma_find_from(path, seq!['.'], 0);
            match find(path, seq!['.']) {
                None => {},
                Some(i) => {
                    let key = YamlV::Str(path.subrange(0, i));
                    let rest = path.subrange(i + 1, path.len() as int);
                    match map_get(m, key) {
                        Some(c) => {
                            lemma_set_nested_outcome(c, rest, v);
                            if !set_nested(c, rest, v).1 {
                                lemma_key_pos_from(m, key, 0);
                                let k = key_pos(m, key).unwrap();
                                assert(map_insert(m, key, c) =~= m);
                            }
                        },
                        None => {
                            lemma_set_nested_outcome(YamlV::Mapping(seq![]), rest, v);
                        },
                    }
                },
            }
        },
        _ => {},
    }
}

/// A successful write at a dotted path leaves every path that parts ways with
/// it reading as before.
pub proof fn lemma_set_nested_frame(y: YamlV, path: Seq<char>, v: YamlV, q: Seq<char>)
    requires
        set_nested(y, path, v).1,
        paths_diverge(path, q),
    ensures
        get_nested(set_nested(y, path, v).0, q) == get_nested(y, q),
    decreases path.len(),
{
    match y {
        YamlV::Mapping(m) => {
            lemma_find_from(path, seq!['.'], 0);
            lemma_find_from(q, seq!['.'], 0);
            let kp = YamlV::Str(first_segment(path));
            let kq = YamlV::Str(first_segment(q));
            let ny = set_nested(y, path, v).0;
            match find(path, seq!['.']) {
                None => {
                    if kp != kq {
                        lemma_map_get_insert_other(m, kp, v, kq);
                    }
                },
                Some(i) => {
                    let rest = path.subrange(i + 1, path.len() as int);
                    let child = match map_get(m, kp) {
                        Some(c) => c,
                        None => YamlV::Mapping(seq![]),
                    };
                    let nc = set_nested(child, rest, v).0;
                    if kp != kq {
                        lemma_map_get_insert_other(m, kp, nc, kq);
                    } else {
                        let j = find(q, seq!['.']).unwrap();
                        let qrest = q.subrange(j + 1, q.len() as int);
                        lemma_map_get_insert(m, kp, nc);
                        lemma_set_nested_frame(child, rest, v, qrest);
                        match map_get(m, kp) {
                            Some(c) => {},
                            None => {
                                assert(get_nested(YamlV::Mapping(seq![]), qrest) is None) by {
                                    lemma_find_from(qrest, seq!['.'], 0);
                                    lemma_key_pos_from(Seq::<(YamlV, YamlV)>::empty(), YamlV::Str(qrest), 0);
                                    match find(qrest, seq!['.']) {
                                        Some(jj) => lemma_key_pos_from(
                                            Seq::<(YamlV, YamlV)>::empty(),
                                            YamlV::Str(qrest.subrange(0, jj)),
                                            0,
                                        ),
                                        None => {},
                                    }
                                }
                            },
                        }
                    }
                },
            }
        },
        _ => {},
    }
}

/// Writes `v` at the dotted `path` inside `y` (see `set_nested`).
pub fn set_nested_exec(y: Yaml, path: &Vec<char>, v: Yaml) -> (r: (Yaml, bool))
    ensures
        (r.0.model(), r.1) == set_nested(y.model(), path@, v.model()),
    decreases path.len(),
{
    let dot = vec!['.'];
    assert(dot@ =~= seq!['.']);
    match y {
        Yaml::Mapping(mut entries) => {
            proof {
                lemma_map_model(entries);
            }
            let ghost m0 = entries_model(entries@);
            let ghost v0 = entries@;
            match find_exec(path, &dot) {
                None => {
                    let key = Yaml::Str(string_of(path));
                    map_insert_exec(&mut entries, key, v);
                    proof {
                        lemma_map_model(entries);
                    }
                    (Yaml::Mapping(entries), true)
                },
                Some(i) => {
                    proof {
                        lemma_find_from(path@, seq!['.'], 0);
                    }
                    let key = Yaml::Str(string_of(&slice_of(path, 0, i)));
                    let rest = slice_of(path, i + 1, path.len());
                    let pos = find_key(&entries, &key);
                    let child = match pos {
                        Some(p) => {
                            let e = entries.remove(p);
                            e.value
                        },
                        None => {
                            let empty: Vec<YamlEntry> = Vec::new();
                            proof {
                                lemma_map_model(empty);
                                assert(entries_model(empty@) =~= seq![]);
                            }
                            Yaml::Mapping(empty)
                        },
                    };
                    let ghost cm = child.model();
                    assert(cm == match map_get(m0, key.model()) {
                        Some(c) => c,
                        None => YamlV::Mapping(seq![]),
                    });
                    let (nc, ok) = set_nested_exec(child, &rest, v);
                    match pos {
                        Some(p) => {
                            let kk = yaml_copy(&key);
                            proof {
                                lemma_key_pos_from(m0, key.model(), 0);
                            }
                            let ghost ne = YamlEntry { key: kk, value: nc };
                            entries.insert(p, YamlEntry { key: kk, value: nc });
                            assert(entries@ =~= v0.update(p as int, ne));
                            assert(entries_model(entries@) =~= m0.update(
                                p as int,
                                (m0[p as int].0, nc.model()),
                            ));
                            assert(m0[p as int].0 == key.model());
                        },
                        None => {
                            entries.push(YamlEntry { key, value: nc });
                            assert(entries_model(entries@) =~= m0.push((key.model(), nc.model())));
                        },
                    }
                    proof {
                        lemma_map_model(entries);
                    }
                    (Yaml::Mapping(entries), ok)
                },
            }
        },
        other => (other, false),
    }
}

/// Sets `value` at the dotted `path` inside `config`, creating intermediate mappings;
/// fails, leaving what lies below the failing node untouched, where the path meets
/// a node that is not a mapping.
pub fn set_nested_value(config: &mut Yaml, path: &str, value: Yaml) -> (r: Result<(), String>)
    ensures
        (final(config).model(), r is Ok) == set_nested(old(config).model(), path@, value.model()),
        r matches Err(e) ==> e@ == "Expected mapping at config node"@,
{
    let mut taken = Yaml::Null;
    std::mem::swap(&mut taken, config);
    let p = chars_of(path);
    let (updated, ok) = set_nested_exec(taken, &p, value);
    *config = updated;
    if ok {
        Ok(())
    } else {
        Err(String::from_str("Expected mapping at config node"))
    }
}


/// Deep merge of `o` into `b`: two mappings merge key by key (recursively for keys
/// that both hold); any other `o` replaces `b`.
pub open spec fn merge(b: YamlV, o: YamlV) -> YamlV
    decreases o, 1int,
{
    match b {
        YamlV::Mapping(bm) => match o {
            YamlV::Mapping(om) => YamlV::Mapping(merge_entries(bm, om, om.len() as int)),
            _ => o,
        },
        _ => o,
    }
}

/// The entries of `bm` after merging in the first `n` entries of `om`, in order.
pub open spec fn merge_entries(bm: Seq<(YamlV, YamlV)>, om: Seq<(YamlV, YamlV)>, n: int) -> Seq<
    (YamlV, YamlV),
>
    decreases om, n,
{
    if n <= 0 || n > om.len() {
        bm
    } else {
        let acc = merge_entries(bm, om, n - 1);
        let k = om[n - 1].0;
        let v = om[n - 1].1;
        match key_pos(acc, k) {
            Some(i) => acc.update(i, (acc[i].0, merge(acc[i].1, v))),
            None => acc.push((k, v)),
        }
    }
}

/// Merges `overlay` into `base` (see `merge`).
#[verifier::loop_isolation(false)]
pub fn deep_merge(base: Yaml, overlay: Yaml) -> (r: Yaml)
    ensures
        r.model() == merge(base.model(), overlay.model()),
    decreases overlay,
{
    match base {
        Yaml::Mapping(mut bm) => match overlay {
            Yaml::Mapping(om) => {
                proof {
                    lemma_map_model(bm);
                    lemma_map_model(om);
                }
                let ghost bm0 = entries_model(bm@);
                let ghost om0 = entries_model(om@);
                let ghost omv = om@;
                let mut rest = om;
                let mut n: usize = 0;
                let total = rest.len();
                // Entries are taken from the back of a reversed copy so that they
                // are merged front to back.
                let mut rev: Vec<YamlEntry> = Vec::new();
                while rest.len() > 0
                    invariant
                        rest.len() + rev.len() == total,
                        total == omv.len(),
                        forall|k: int| 0 <= k < rest.len() ==> rest@[k] == omv[k],
                        forall|k: int|
                            0 <= k < rev.len() ==> rev@[k] == omv[total - 1 - k],
                    decreases rest.len(),
                {
                    let e = rest.pop().unwrap();
                    rev.push(e);
                }
                while n < total
                    invariant
                        n <= total,
                        rev.len() == total - n,
                        total == omv.len(),
                        forall|k: int|
                            0 <= k < rev.len() ==> rev@[k] == omv[total - 1 - k],
                        entries_model(bm@) == merge_entries(bm0, om0, n as int),
                        om0 == entries_model(omv),
                    decreases total - n,
                {
                    let e = rev.pop().unwrap();
                    assert(e == omv[n as int]);
                    assert(decreases_to!(overlay => omv));
                    assert(decreases_to!(omv => omv[n as int]));
                    let ghost acc = entries_model(bm@);
                    proof {
                        lemma_key_pos_from(acc, e.key.model(), 0);
                    }
                    match find_key(&bm, &e.key) {
                        Some(i) => {
                            let old = bm.remove(i);
                            let merged = deep_merge(old.value, e.value);
                            bm.insert(i, YamlEntry { key: old.key, value: merged });
                            assert(entries_model(bm@) =~= acc.update(
                                i as int,
                                (acc[i as int].0, merge(acc[i as int].1, om0[n as int].1)),
                            ));
                        },
                        None => {
                            bm.push(e);
                            assert(entries_model(bm@) =~= acc.push(om0[n as int]));
                        },
                    }
                    n = n + 1;
                }
                proof {
                    lemma_map_model(bm);
                }
                Yaml::Mapping(bm)
            },
            other => other,
        },
        _ => overlay,
    }
}

/// Merges `overlay` into `base` in place (see `merge`).
pub fn deep_merge_yaml(base: &mut Yaml, overlay: Yaml)
    ensures
        final(base).model() == merge(old(base).model(), overlay.model()),
{
    let mut taken = Yaml::Null;
    std::mem::swap(&mut taken, base);
    *base = deep_merge(taken, overlay);
}


#[verifier::external_type_specification]
#[verifier::external_body]
pub struct ExSerdeYamlValue(Value);

/// What `serde_yaml::from_str::<Value>` gives for a text: the value, or the
/// `Display` text of the error it reports.
pub uninterp spec fn yaml_from_str(text: Seq<char>) -> Result<YamlV, Seq<char>>;

/// What `serde_yaml::to_string` gives for a value: the YAML text, or the
/// `Display` text of the error it reports.
pub uninterp spec fn yaml_to_string(v: YamlV) -> Result<Seq<char>, Seq<char>>;

/// The value a text reads as, if it is YAML.
pub open spec fn yaml_parse(text: Seq<char>) -> Option<YamlV> {
    match yaml_from_str(text) {
        Ok(v) => Some(v),
        Err(_) => None,
    }
}

/// The YAML text of a value (empty where the serializer fails).
pub open spec fn yaml_render(v: YamlV) -> Seq<char> {
    match yaml_to_string(v) {
        Ok(t) => t,
        Err(_) => seq![],
    }
}

/// Converts a `serde_yaml::Value` into the library's tree, node for node
/// (numbers keep their `Display` text, tags their `Display` text `!name`).
#[verifier::external_body]
fn from_serde(v: Value) -> Yaml {
    match v {
        Value::Null => Yaml::Null,
        Value::Bool(b) => Yaml::Bool(b),
        Value::Number(n) => Yaml::Number(n.to_string()),
        Value::String(s) => Yaml::Str(s),
        Value::Sequence(s) => Yaml::Sequence(s.into_iter().map(from_serde).collect()),
        Value::Mapping(m) => Yaml::Mapping(m.into_iter().map(from_serde_entry).collect()),
        Value::Tagged(t) => Yaml::Tagged(YamlTag { text: t.tag.to_string() }, Box::new(from_serde(t.value))),
    }
}

/// Converts one `serde_yaml::Mapping` entry, key and value node for node.
#[verifier::external_body]
fn from_serde_entry(kv: (Value, Value)) -> YamlEntry {
    YamlEntry { key: from_serde(kv.0), value: from_serde(kv.1) }
}

/// Converts the library's tree into a `serde_yaml::Value`, node for node
/// (a number text that `serde_yaml::Number` does not read stays a string).
#[verifier::external_body]
fn to_serde(v: &Yaml) -> Value {
    match v {
        Yaml::Null => Value::Null,
        Yaml::Bool(b) => Value::Bool(*b),
        Yaml::Number(n) => n.parse().map(Value::Number).unwrap_or_else(|_| Value::String(n.clone())),
        Yaml::Str(s) => Value::String(s.clone()),
        Yaml::Sequence(s) => Value::Sequence(s.iter().map(to_serde).collect()),
        Yaml::Mapping(m) => Value::Mapping(m.iter().map(|e| (to_serde(&e.key), to_serde(&e.value))).collect()),
        Yaml::Tagged(t, inner) => Value::Tagged(Box::new(TaggedValue { tag: Tag::new(t.text.clone()), value: to_serde(inner) })),
    }
}

/// Reads a YAML document with `serde_yaml::from_str::<serde_yaml::Value>`.
/// The contract names the outcome `yaml_from_str(text@)` (the value, or the
/// error's text); what the parser accepts is not stated.
#[verifier::external_body]
pub(crate) fn parse_yaml(text: &str) -> (r: Result<Yaml, String>)
    ensures
        r matches Ok(y) ==> (yaml_from_str(text@) matches Ok(v) && v == y.model()),
        r matches Err(e) ==> (yaml_from_str(text@) matches Err(m) && m == e@),
{
    serde_yaml::from_str::<Value>(text).map(from_serde).map_err(|e| e.to_string())
}

/// Writes a value as YAML text with `serde_yaml::to_string`. The contract names
/// the outcome `yaml_to_string(v.model())`; the layout of the text is not stated.
#[verifier::external_body]
pub(crate) fn to_yaml_string(v: &Yaml) -> (r: Result<String, String>)
    ensures
        r matches Ok(t) ==> (yaml_to_string(v.model()) matches Ok(x) && x == t@),
        r matches Err(e) ==> (yaml_to_string(v.model()) matches Err(m) && m == e@),
{
    serde_yaml::to_string(&to_serde(v)).map_err(|e| e.to_string())
}

/// The YAML text of a value, or the empty text where the serializer fails.
pub fn render_yaml(v: &Yaml) -> (r: String)
    ensures
        r@ == yaml_render(v.model()),
{
    match to_yaml_string(v) {
        Ok(t) => t,
        Err(_) => String::new(),
    }
}

/// A YAML scalar string, or `Str(s)` itself where the text is not YAML.
pub open spec fn parse_or_str(s: Seq<char>) -> YamlV {
    match yaml_parse(s) {
        Some(v) => v,
        None => YamlV::Str(s),
    }
}

/// Reads `text` as YAML, falling back to the plain string.
pub fn parse_or_string(text: &Vec<char>) -> (r: Yaml)
    ensures
        r.model() == parse_or_str(text@),
{
    let s = string_of(text);
    match parse_yaml(s.as_str()) {
        Ok(y) => y,
        Err(_) => Yaml::Str(s),
    }
}

/// The value a YAML document reads as; `None` where it is not YAML.
pub fn yaml_document(text: &str) -> (r: Option<Yaml>)
    ensures
        r matches Some(y) ==> yaml_parse(text@) == Some(y.model()),
        r is None ==> yaml_parse(text@) is None,
{
    match parse_yaml(text) {
        Ok(y) => Some(y),
        Err(_) => None,
    }
}

} // verus!
