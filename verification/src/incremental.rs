//! Incremental regeneration: the cache file that one run writes, read back by
//! the next run, reports no change when no input file changed.
use vstd::prelude::*;
use crate::ast::{lemma_str_get_insert, lemma_str_get_insert_other, str_get, str_insert};
use crate::integration::{
    added_paths, cache_fold, cache_line, changed_paths, lemma_cache_unchanged, removed_paths,
};
use crate::ast::lemma_str_key_pos_props;
use crate::text::{
    all_digits, dec, digits_value, find_from, is_digit, join, lemma_dec_digits, lemma_find_from,
    lemma_lex_total_ordering, lex_leq, lines, lines_from, matches_at, parse_uint, split_once,
    strip_cr,
};

verus! {

/// `x` holds the character `c`.
pub open spec fn has_char(x: Seq<char>, c: char) -> bool {
    exists|i: int| 0 <= i < x.len() && x[i] == c
}

proof fn lemma_find_char_at(s: Seq<char>, c: char, i: int, j: int)
    requires
        0 <= i <= j < s.len(),
        s[j] == c,
        forall|q: int| i <= q < j ==> s[q] != c,
    ensures
        find_from(s, seq![c], i) == Some(j),
    decreases j - i,
{
    assert(s.subrange(j, j + 1) =~= seq![c]);
    if i < j {
        assert(s.subrange(i, i + 1)[0] == s[i]);
        lemma_find_char_at(s, c, i + 1, j);
    }
}

proof fn lemma_find_char_none(s: Seq<char>, c: char, i: int)
    requires
        0 <= i <= s.len(),
        forall|q: int| i <= q < s.len() ==> s[q] != c,
    ensures
        find_from(s, seq![c], i) is None,
    decreases s.len() - i,
{
    if i < s.len() {
        assert(s.subrange(i, i + 1)[0] == s[i]);
        assert(!matches_at(s, seq![c], i));
        lemma_find_char_none(s, c, i + 1);
    } else {
        assert(!matches_at(s, seq![c], i));
        assert(find_from(s, seq![c], i + 1) is None);
    }
}

/// The lines of a text after a prefix are those of the rest.
proof fn lemma_lines_shift(pre: Seq<char>, b: Seq<char>, k: int)
    requires
        0 <= k,
    ensures
        lines_from(pre + b, pre.len() + k) == lines_from(b, k),
    decreases b.len() - k,
{
    let s = pre + b;
    let nl = seq!['\n'];
    if k < b.len() {
        lemma_find_from(s, nl, pre.len() + k);
        lemma_find_from(b, nl, k);
        match find_from(b, nl, k) {
            Some(j) => {
                assert(b[j] == '\n') by {
                    assert(b.subrange(j, j + 1)[0] == b[j]);
                }
                assert forall|q: int| pre.len() + k <= q < pre.len() + j implies s[q] != '\n' by {
                    assert(!matches_at(b, nl, q - pre.len()));
                    assert(s[q] == b[q - pre.len()]);
                    if s[q] == '\n' {
                        assert(b.subrange(q - pre.len(), q - pre.len() + 1) =~= nl);
                    }
                }
                assert(s[pre.len() + j] == '\n');
                lemma_find_char_at(s, '\n', pre.len() + k, pre.len() + j);
                assert(s.subrange(pre.len() + k, pre.len() + j) =~= b.subrange(k, j));
                lemma_lines_shift(pre, b, j + 1);
            },
            None => {
                assert forall|q: int| pre.len() + k <= q < s.len() implies s[q] != '\n' by {
                    assert(!matches_at(b, nl, q - pre.len()));
                    if s[q] == '\n' {
                        assert(b.subrange(q - pre.len(), q - pre.len() + 1) =~= nl);
                    }
                }
                lemma_find_char_none(s, '\n', pre.len() + k);
                assert(s.subrange(pre.len() + k, s.len() as int) =~= b.subrange(k, b.len() as int));
            },
        }
    }
}

proof fn lemma_join_front(xs: Seq<Seq<char>>, sep: Seq<char>)
    requires
        xs.len() >= 2,
    ensures
        join(xs, sep) == xs[0] + sep + join(xs.drop_first(), sep),
    decreases xs.len(),
{
    if xs.len() == 2 {
        assert(xs.drop_last().len() == 1);
        assert(join(xs.drop_last(), sep) == xs.drop_last()[0]);
        assert(xs.drop_last()[0] == xs[0]);
        assert(xs.drop_first().len() == 1);
        assert(join(xs.drop_first(), sep) == xs.drop_first()[0]);
        assert(xs.drop_first()[0] == xs.last());
        assert(join(xs, sep) == join(xs.drop_last(), sep) + sep + xs.last());
    } else {
        lemma_join_front(xs.drop_last(), sep);
        let a = xs.drop_last();
        let b = xs.drop_first();
        assert(a.drop_first() =~= b.drop_last());
        assert(b.last() == xs.last());
        assert(a[0] == xs[0]);
        assert(join(xs, sep) == join(a, sep) + sep + xs.last());
        assert(join(a, sep) == xs[0] + sep + join(b.drop_last(), sep));
        assert(join(b, sep) == join(b.drop_last(), sep) + sep + b.last());
        assert(join(xs, sep) =~= xs[0] + sep + join(b, sep));
    }
}

proof fn lemma_lines_cons(x: Seq<char>, rest: Seq<char>)
    requires
        !has_char(x, '\n'),
        x.len() > 0,
        x.last() != '\r',
    ensures
        lines(x + "\n"@ + rest) == seq![x] + lines(rest),
{
    reveal_strlit("\n");
    let s = x + "\n"@ + rest;
    assert forall|q: int| 0 <= q < x.len() implies s[q] != '\n' by {
        assert(s[q] == x[q]);
        if x[q] == '\n' {
            assert(has_char(x, '\n'));
        }
    }
    assert(s[x.len() as int] == '\n');
    lemma_find_char_at(s, '\n', 0, x.len() as int);
    assert(s.subrange(0, x.len() as int) =~= x);
    assert(strip_cr(x) == x);
    assert(s =~= (x + "\n"@) + rest);
    lemma_lines_shift(x + "\n"@, rest, 0);
    assert(lines_from(s, x.len() + 1 as int) == lines_from(rest, 0));
}

/// Lines that hold no line feed, are not empty and do not end in a carriage
/// return read back from their newline-joined text.
proof fn lemma_lines_join(xs: Seq<Seq<char>>)
    requires
        forall|i: int| 0 <= i < xs.len() ==> !has_char(#[trigger] xs[i], '\n'),
        forall|i: int| 0 <= i < xs.len() ==> (#[trigger] xs[i]).len() > 0 && xs[i].last() != '\r',
    ensures
        lines(join(xs, "\n"@)) == xs,
    decreases xs.len(),
{
    reveal_strlit("\n");
    if xs.len() == 0 {
        assert(lines(seq![]) =~= Seq::<Seq<char>>::empty());
    } else if xs.len() == 1 {
        let x = xs[0];
        assert(join(xs, "\n"@) == x);
        assert forall|q: int| 0 <= q < x.len() implies x[q] != '\n' by {
            if x[q] == '\n' {
                assert(has_char(x, '\n'));
            }
        }
        lemma_find_char_none(x, '\n', 0);
        assert(x.subrange(0, x.len() as int) =~= x);
        assert(lines(x) =~= seq![x]);
    } else {
        let x = xs[0];
        let t = xs.drop_first();
        lemma_join_front(xs, "\n"@);
        lemma_lines_cons(x, join(t, "\n"@));
        assert forall|i: int| 0 <= i < t.len() implies !has_char(#[trigger] t[i], '\n') by {
            assert(t[i] == xs[i + 1]);
        }
        assert forall|i: int| 0 <= i < t.len() implies (#[trigger] t[i]).len() > 0 && t[i].last() != '\r' by {
            assert(t[i] == xs[i + 1]);
        }
        lemma_lines_join(t);
        assert(seq![x] + t =~= xs);
    }
}

/// The cache keys are distinct and hold no tab and no line feed.
pub open spec fn cache_keys_ok(m: Seq<(Seq<char>, u64)>) -> bool {
    &&& forall|i: int, j: int| 0 <= i < j < m.len() ==> (#[trigger] m[i]).0 != (#[trigger] m[j]).0
    &&& forall|i: int| 0 <= i < m.len() ==> !has_char((#[trigger] m[i]).0, '\t') && !has_char(m[i].0, '\n')
}

/// A cache line reads back as its path and hash.
proof fn lemma_cache_line_parse(e: (Seq<char>, u64))
    requires
        !has_char(e.0, '\t'),
        !has_char(e.0, '\n'),
    ensures
        split_once(cache_line(e), '\t') == Some((e.0, dec(e.1 as nat))),
        parse_uint(dec(e.1 as nat), 0xFFFF_FFFF_FFFF_FFFF) == Some(e.1 as int),
        !has_char(cache_line(e), '\n'),
        cache_line(e).len() > 0,
        cache_line(e).last() != '\r',
{
    reveal_strlit("\t");
    let d = dec(e.1 as nat);
    lemma_dec_digits(e.1 as nat);
    let l = cache_line(e);
    let k = e.0;
    assert(l == k + "\t"@ + d);
    assert forall|q: int| 0 <= q < k.len() implies l[q] != '\t' by {
        assert(l[q] == k[q]);
        if k[q] == '\t' {
            assert(has_char(k, '\t'));
        }
    }
    assert(l[k.len() as int] == '\t');
    lemma_find_char_at(l, '\t', 0, k.len() as int);
    assert(l.subrange(0, k.len() as int) =~= k);
    assert(l.subrange(k.len() + 1 as int, l.len() as int) =~= d);
    assert(is_digit(d[0]));
    assert(d[0] != '+');
    if has_char(l, '\n') {
        let i = choose|i: int| 0 <= i < l.len() && l[i] == '\n';
        if i < k.len() {
            assert(l[i] == k[i]);
            assert(has_char(k, '\n'));
        } else if i > k.len() {
            assert(l[i] == d[i - k.len() - 1]);
            assert(is_digit(d[i - k.len() - 1]));
        }
    }
    assert(l.last() == d.last());
    assert(is_digit(d[d.len() - 1]));
}

/// `ls[j]` is the cache line of entry `idx[j]`, for every `j`.
pub open spec fn lines_of_entries(m: Seq<(Seq<char>, u64)>, ls: Seq<Seq<char>>, idx: Seq<int>) -> bool {
    &&& idx.len() == ls.len()
    &&& forall|j: int| 0 <= j < ls.len() ==> 0 <= #[trigger] idx[j] < m.len() && ls[j] == cache_line(m[idx[j]])
}

/// A path whose cache line is among the first `n` lines reads its hash.
proof fn lemma_fold_get(m: Seq<(Seq<char>, u64)>, ls: Seq<Seq<char>>, idx: Seq<int>, n: int, i: int, j: int)
    requires
        cache_keys_ok(m),
        lines_of_entries(m, ls, idx),
        0 <= i < m.len(),
        0 <= j < n <= ls.len(),
        ls[j] == cache_line(m[i]),
    ensures
        str_get(cache_fold(ls, n), m[i].0) == Some(m[i].1),
    decreases n,
{
    let acc = cache_fold(ls, n - 1);
    let c = idx[n - 1];
    assert(0 <= c < m.len() && ls[n - 1] == cache_line(m[c]));
    lemma_cache_line_parse(m[c]);
    let h = m[c].1;
    assert(cache_fold(ls, n) == str_insert(acc, m[c].0, (h as int) as u64));
    if c == i {
        lemma_str_get_insert(acc, m[i].0, m[i].1);
    } else {
        assert(m[c].0 != m[i].0) by {
            if c < i {
                assert(m[c].0 != m[i].0);
            } else {
                assert(m[i].0 != m[c].0);
            }
        }
        lemma_cache_line_parse(m[i]);
        assert(j != n - 1);
        lemma_fold_get(m, ls, idx, n - 1, i, j);
        lemma_str_get_insert_other(acc, m[c].0, h, m[i].0);
    }
}

/// Every path read from the lines is a path of the entries.
proof fn lemma_fold_keys(m: Seq<(Seq<char>, u64)>, ls: Seq<Seq<char>>, idx: Seq<int>, n: int)
    requires
        cache_keys_ok(m),
        lines_of_entries(m, ls, idx),
        0 <= n <= ls.len(),
    ensures
        forall|j: int| 0 <= j < cache_fold(ls, n).len() ==> exists|c: int|
            0 <= c < m.len() && (#[trigger] cache_fold(ls, n)[j]).0 == m[c].0,
    decreases n,
{
    if n > 0 {
        lemma_fold_keys(m, ls, idx, n - 1);
        let acc = cache_fold(ls, n - 1);
        let c = idx[n - 1];
        assert(0 <= c < m.len() && ls[n - 1] == cache_line(m[c]));
        lemma_cache_line_parse(m[c]);
        let r = cache_fold(ls, n);
        assert(r == str_insert(acc, m[c].0, (m[c].1 as int) as u64));
        lemma_str_key_pos_props(acc, m[c].0);
        assert forall|j: int| 0 <= j < r.len() implies exists|d: int| 0 <= d < m.len() && (#[trigger] r[j]).0 == m[d].0 by {
            if j < acc.len() && r[j].0 == acc[j].0 {
                assert(acc[j] == acc[j]);
            } else {
                assert(r[j].0 == m[c].0);
            }
        }
    }
}

/// The cache that one run writes, read back by the next run, reports no
/// changed, added or removed file when the hashes are the same: regeneration
/// is skipped when no input changed.
pub proof fn lemma_cache_round_trip(m: Seq<(Seq<char>, u64)>)
    requires
        cache_keys_ok(m),
    ensures
        ({
            let text = join(m.map_values(|e: (Seq<char>, u64)| cache_line(e)).sort_by(lex_leq()), "\n"@);
            let old = cache_fold(lines(text), lines(text).len() as int);
            &&& changed_paths(m, old).len() == 0
            &&& added_paths(m, old).len() == 0
            &&& removed_paths(m, old).len() == 0
        }),
{
    let l = m.map_values(|e: (Seq<char>, u64)| cache_line(e));
    lemma_lex_total_ordering();
    l.lemma_sort_by_ensures(lex_leq());
    let srt = l.sort_by(lex_leq());
    broadcast use vstd::seq_lib::group_to_multiset_ensures;
    assert forall|j: int| 0 <= j < srt.len() implies l.contains(#[trigger] srt[j]) by {
        assert(srt.contains(srt[j]));
    }
    let idx = Seq::new(srt.len(), |j: int| choose|c: int| 0 <= c < l.len() && l[c] == srt[j]);
    assert(lines_of_entries(m, srt, idx)) by {
        assert forall|j: int| 0 <= j < srt.len() implies 0 <= #[trigger] idx[j] < m.len() && srt[j] == cache_line(m[idx[j]]) by {
            assert(l.contains(srt[j]));
            assert(l[idx[j]] == cache_line(m[idx[j]]));
        }
    }
    assert forall|j: int| 0 <= j < srt.len() implies !has_char(#[trigger] srt[j], '\n') by {
        lemma_cache_line_parse(m[idx[j]]);
    }
    assert forall|j: int| 0 <= j < srt.len() implies (#[trigger] srt[j]).len() > 0 && srt[j].last() != '\r' by {
        lemma_cache_line_parse(m[idx[j]]);
    }
    lemma_lines_join(srt);
    let text = join(srt, "\n"@);
    assert(lines(text) == srt);
    let old = cache_fold(srt, srt.len() as int);
    assert forall|i: int| 0 <= i < m.len() implies str_get(old, (#[trigger] m[i]).0) == Some(m[i].1) by {
        assert(l[i] == cache_line(m[i]));
        assert(l.contains(cache_line(m[i])));
        assert(l.to_multiset().count(cache_line(m[i])) > 0);
        assert(srt.to_multiset().count(cache_line(m[i])) > 0);
        assert(srt.contains(cache_line(m[i])));
        let j = choose|j: int| 0 <= j < srt.len() && srt[j] == cache_line(m[i]);
        lemma_fold_get(m, srt, idx, srt.len() as int, i, j);
    }
    lemma_fold_keys(m, srt, idx, srt.len() as int);
    assert forall|j: int| 0 <= j < old.len() implies str_get(m, (#[trigger] old[j]).0) is Some by {
        let c = choose|c: int| 0 <= c < m.len() && old[j].0 == m[c].0;
        lemma_str_key_pos_props(m, old[j].0);
    }
    lemma_cache_unchanged(m, old);
}

} // verus!
