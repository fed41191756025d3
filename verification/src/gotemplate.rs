//! Go templates (`{{ ... }}`) in network files are swapped for placeholders
//! `__GOTEMPL<n>__` while the YAML is processed and swapped back afterwards.
//! This module proves that swapping them back gives the text as it was.
use vstd::prelude::*;
use crate::integration::{extract_from, placeholder, restore_fold};
use crate::text::{
    contains, dec, find_from, is_digit, lemma_dec_digits, lemma_find_from, matches_at, replace_all,
    replace_from,
};

verus! {

/// The letters every placeholder holds after its two leading underscores.
pub open spec fn marker() -> Seq<char> {
    "GOTEMPL"@
}

proof fn lemma_marker_chars()
    ensures
        marker().len() == 7,
        forall|i: int| 0 <= i < 7 ==> #[trigger] marker()[i] != '_' && !is_digit(marker()[i]),
        marker()[0] == 'G',
{
    reveal_strlit("GOTEMPL");
}

/// The start of every placeholder: two underscores and the marker.
pub open spec fn lead() -> Seq<char> {
    seq!['_', '_'] + marker()
}

/// No placeholder start occurs in `x`.
pub open spec fn lead_free(x: Seq<char>) -> bool {
    forall|w: int| !#[trigger] matches_at(x, lead(), w)
}

/// `x` starts neither with the marker nor with an underscore and the marker.
pub open spec fn clean_start(x: Seq<char>) -> bool {
    !matches_at(x, marker(), 0) && !matches_at(x, seq!['_'] + marker(), 0)
}

/// `}}` and the marker.
pub open spec fn close_marker() -> Seq<char> {
    seq!['}', '}'] + marker()
}

/// `}}`, an underscore and the marker.
pub open spec fn close_u_marker() -> Seq<char> {
    seq!['}', '}', '_'] + marker()
}

/// A text in which no placeholder can be mistaken for another: it holds no
/// placeholder start, and no `}}` is followed by the marker or by an
/// underscore and the marker.
pub open spec fn no_collision(t: Seq<char>) -> bool {
    &&& lead_free(t)
    &&& forall|w: int| !#[trigger] matches_at(t, close_marker(), w)
    &&& forall|w: int| !#[trigger] matches_at(t, close_u_marker(), w)
}

/// A piece of a text without placeholder starts has none either.
proof fn lemma_lead_free_sub(s: Seq<char>, a: int, b: int)
    requires
        lead_free(s),
        0 <= a <= b <= s.len(),
    ensures
        lead_free(s.subrange(a, b)),
{
    lemma_marker_chars();
    assert(lead().len() == 9);
    let x = s.subrange(a, b);
    assert forall|w: int| !#[trigger] matches_at(x, lead(), w) by {
        if matches_at(x, lead(), w) {
            assert(x.subrange(w, w + 9) =~= s.subrange(a + w, a + w + 9));
            assert(matches_at(s, lead(), a + w));
        }
    }
}

/// The shape of a placeholder: two underscores, the marker, the digits of its
/// number, two underscores.
proof fn lemma_placeholder_shape(m: nat)
    ensures
        placeholder(m).len() == dec(m).len() + 11,
        placeholder(m)[0] == '_',
        placeholder(m)[1] == '_',
        placeholder(m).subrange(2, 9) == marker(),
        forall|i: int| 9 <= i < 9 + dec(m).len() as int ==> #[trigger] is_digit(placeholder(m)[i]),
        placeholder(m)[placeholder(m).len() - 2] == '_',
        placeholder(m)[placeholder(m).len() - 1] == '_',
        placeholder(m).subrange(9, 9 + dec(m).len() as int) == dec(m),
{
    reveal_strlit("__GOTEMPL");
    reveal_strlit("__");
    reveal_strlit("GOTEMPL");
    lemma_dec_digits(m);
    let d = dec(m);
    let p = placeholder(m);
    assert(p.subrange(2, 9) =~= marker());
    assert(p.subrange(9, 9 + d.len() as int) =~= d);
    assert forall|i: int| 9 <= i < 9 + d.len() as int implies #[trigger] is_digit(p[i]) by {
        assert(p[i] == d[i - 9]);
    }
}

/// Two placeholders that both start at the same place of a text are the same.
proof fn lemma_placeholder_unique(s: Seq<char>, q: int, k: nat, m: nat)
    requires
        matches_at(s, placeholder(k), q),
        matches_at(s, placeholder(m), q),
    ensures
        k == m,
{
    lemma_placeholder_shape(k);
    lemma_placeholder_shape(m);
    lemma_dec_digits(k);
    lemma_dec_digits(m);
    let a = dec(k);
    let b = dec(m);
    let pk = placeholder(k);
    let pm = placeholder(m);
    assert(forall|i: int| 0 <= i < pk.len() ==> #[trigger] s[q + i] == pk[i]) by {
        assert forall|i: int| 0 <= i < pk.len() implies #[trigger] s[q + i] == pk[i] by {
            assert(s.subrange(q, q + pk.len())[i] == s[q + i]);
        }
    }
    assert(forall|i: int| 0 <= i < pm.len() ==> #[trigger] s[q + i] == pm[i]) by {
        assert forall|i: int| 0 <= i < pm.len() implies #[trigger] s[q + i] == pm[i] by {
            assert(s.subrange(q, q + pm.len())[i] == s[q + i]);
        }
    }
    if a.len() < b.len() {
        assert(pk[9 + a.len() as int] == '_');
        assert(is_digit(pm[9 + a.len() as int]));
        assert(s[q + 9 + a.len() as int] == pk[9 + a.len() as int]);
        assert(s[q + 9 + a.len() as int] == pm[9 + a.len() as int]);
    } else if a.len() > b.len() {
        assert(pm[9 + b.len() as int] == '_');
        assert(is_digit(pk[9 + b.len() as int]));
        assert(s[q + 9 + b.len() as int] == pk[9 + b.len() as int]);
        assert(s[q + 9 + b.len() as int] == pm[9 + b.len() as int]);
    } else {
        assert forall|i: int| 0 <= i < a.len() implies a[i] == b[i] by {
            assert(pk.subrange(9, 9 + a.len() as int)[i] == pk[9 + i]);
            assert(pm.subrange(9, 9 + b.len() as int)[i] == pm[9 + i]);
            assert(s[q + 9 + i] == pk[9 + i]);
            assert(s[q + 9 + i] == pm[9 + i]);
        }
        assert(a =~= b);
    }
}

/// `segs[0] + xs[0] + segs[1] + xs[1] + ... + segs[n]` for `n` pieces `xs`.
pub open spec fn interleave(segs: Seq<Seq<char>>, xs: Seq<Seq<char>>) -> Seq<char>
    decreases xs.len(),
{
    if segs.len() == 0 {
        seq![]
    } else if xs.len() == 0 {
        segs[0]
    } else {
        segs[0] + xs[0] + interleave(segs.drop_first(), xs.drop_first())
    }
}

/// The placeholders of the given numbers.
pub open spec fn phs(ms: Seq<nat>) -> Seq<Seq<char>> {
    ms.map_values(|m: nat| placeholder(m))
}

/// The numbers `from`, `from + 1`, ..., `to - 1`.
pub open spec fn nums(from: nat, to: nat) -> Seq<nat> {
    Seq::new((to - from) as nat, |i: int| (from + i) as nat)
}

/// Every piece is free of placeholder starts, and every piece after the
/// first (each follows a placeholder) starts clean.
pub open spec fn segs_ok(segs: Seq<Seq<char>>) -> bool {
    forall|i: int| 0 <= i < segs.len() ==> lead_free(#[trigger] segs[i]) && (i > 0 ==> clean_start(segs[i]))
}

proof fn lemma_interleave_split(segs: Seq<Seq<char>>, xs: Seq<Seq<char>>, k: int)
    requires
        segs.len() == xs.len() + 1,
        0 <= k < xs.len(),
    ensures
        interleave(segs, xs) == interleave(segs.take(k + 1), xs.take(k)) + xs[k] + interleave(
            segs.skip(k + 1),
            xs.skip(k + 1),
        ),
    decreases k,
{
    if k == 0 {
        assert(segs.take(1).len() == 1);
        assert(interleave(segs.take(1), xs.take(0)) == segs[0]);
        assert(segs.drop_first() =~= segs.skip(1));
        assert(xs.drop_first() =~= xs.skip(1));
    } else {
        lemma_interleave_split(segs.drop_first(), xs.drop_first(), k - 1);
        assert(segs.drop_first().take(k) =~= segs.take(k + 1).drop_first());
        assert(xs.drop_first().take(k - 1) =~= xs.take(k).drop_first());
        assert(segs.drop_first().skip(k) =~= segs.skip(k + 1));
        assert(xs.drop_first().skip(k) =~= xs.skip(k + 1));
        assert(xs.drop_first()[k - 1] == xs[k]);
        assert(segs.take(k + 1)[0] == segs[0]);
        assert(xs.take(k)[0] == xs[0]);
    }
}

proof fn lemma_matches_shift(x: Seq<char>, y: Seq<char>, p: Seq<char>, q: int)
    requires
        q >= 0,
    ensures
        matches_at(x + y, p, x.len() + q) == matches_at(y, p, q),
{
    if q + p.len() <= y.len() {
        assert((x + y).subrange(x.len() + q, x.len() + q + p.len()) =~= y.subrange(q, q + p.len()));
    }
}

proof fn lemma_matches_char(s: Seq<char>, p: Seq<char>, q: int, i: int)
    requires
        matches_at(s, p, q),
        0 <= i < p.len(),
    ensures
        s[q + i] == p[i],
{
    assert(s.subrange(q, q + p.len())[i] == s[q + i]);
}

/// The first occurrence at or after `i` is `j` where `p` occurs at `j` and
/// nowhere in between.
proof fn lemma_find_at(s: Seq<char>, p: Seq<char>, i: int, j: int)
    requires
        0 <= i <= j,
        matches_at(s, p, j),
        forall|q: int| i <= q < j ==> !#[trigger] matches_at(s, p, q),
    ensures
        find_from(s, p, i) == Some(j),
    decreases j - i,
{
    if i < j {
        lemma_find_at(s, p, i + 1, j);
    }
}

/// Where `p` occurs nowhere at or after `i`, nothing is replaced there.
proof fn lemma_replace_none(s: Seq<char>, p: Seq<char>, t: Seq<char>, i: int)
    requires
        0 <= i <= s.len(),
        p.len() > 0,
        forall|q: int| i <= q ==> !#[trigger] matches_at(s, p, q),
    ensures
        replace_from(s, p, t, i) == s.subrange(i, s.len() as int),
{
    lemma_find_from(s, p, i);
}

/// Text pieces with the placeholders of `ms` between them.
pub open spec fn stream(segs: Seq<Seq<char>>, ms: Seq<nat>) -> Seq<char> {
    interleave(segs, phs(ms))
}

proof fn lemma_stream_unfold(segs: Seq<Seq<char>>, ms: Seq<nat>)
    requires
        segs.len() == ms.len() + 1,
        ms.len() > 0,
    ensures
        stream(segs, ms) == segs[0] + placeholder(ms[0]) + stream(segs.drop_first(), ms.drop_first()),
{
    assert(phs(ms).drop_first() =~= phs(ms.drop_first()));
    assert(phs(ms)[0] == placeholder(ms[0]));
}

proof fn lemma_segs_ok_rest(segs: Seq<Seq<char>>)
    requires
        segs_ok(segs),
        segs.len() > 0,
    ensures
        segs_ok(segs.drop_first()),
        lead_free(segs[0]),
        segs.len() > 1 ==> clean_start(segs[1]),
{
    assert forall|i: int| 0 <= i < segs.drop_first().len() implies lead_free(#[trigger] segs.drop_first()[i])
        && (i > 0 ==> clean_start(segs.drop_first()[i])) by {
        assert(segs.drop_first()[i] == segs[i + 1]);
    }
}

/// A placeholder occurrence begins with a placeholder start.
proof fn lemma_match_lead(s: Seq<char>, k: nat, q: int)
    requires
        matches_at(s, placeholder(k), q),
    ensures
        matches_at(s, lead(), q),
{
    lemma_placeholder_shape(k);
    lemma_marker_chars();
    let p = placeholder(k);
    assert(s.subrange(q, q + 9) =~= lead()) by {
        assert forall|i: int| 0 <= i < 9 implies s.subrange(q, q + 9)[i] == lead()[i] by {
            lemma_matches_char(s, p, q, i);
            if i >= 2 {
                assert(p.subrange(2, 9)[i - 2] == p[i]);
            }
        }
    }
}

/// A stream whose first piece starts clean starts neither with the marker
/// nor with an underscore and the marker.
proof fn lemma_stream_head(segs: Seq<Seq<char>>, ms: Seq<nat>)
    requires
        segs.len() == ms.len() + 1,
        clean_start(segs[0]),
    ensures
        clean_start(stream(segs, ms)),
{
    lemma_marker_chars();
    let b = stream(segs, ms);
    let seg = segs[0];
    let l = seg.len() as int;
    let um = seq!['_'] + marker();
    if ms.len() == 0 {
        assert(b == seg);
    } else {
        lemma_stream_unfold(segs, ms);
        let p = placeholder(ms[0]);
        lemma_placeholder_shape(ms[0]);
        if matches_at(b, marker(), 0) {
            if 7 <= l {
                assert(b.subrange(0, 7) =~= seg.subrange(0, 7));
                assert(matches_at(seg, marker(), 0));
            } else {
                lemma_matches_char(b, marker(), 0, l);
                assert(b[l] == p[0]);
            }
        }
        if matches_at(b, um, 0) {
            if 8 <= l {
                assert(b.subrange(0, 8) =~= seg.subrange(0, 8));
                assert(matches_at(seg, um, 0));
            } else if l == 0 {
                lemma_matches_char(b, um, 0, 1);
                assert(b[1] == p[1]);
                assert(um[1] == marker()[0]);
            } else {
                lemma_matches_char(b, um, 0, l);
                assert(b[l] == p[0]);
                assert(um[l] == marker()[l - 1]);
            }
        }
    }
}

/// Where a placeholder start occurs in a stream: at the stream's first
/// placeholder, or further on.
proof fn lemma_lead_in_stream(segs: Seq<Seq<char>>, ms: Seq<nat>, q: int)
    requires
        segs.len() == ms.len() + 1,
        segs_ok(segs),
        matches_at(stream(segs, ms), lead(), q),
    ensures
        ms.len() > 0,
        q == segs[0].len() || (q >= segs[0].len() + placeholder(ms[0]).len() && matches_at(
            stream(segs.drop_first(), ms.drop_first()),
            lead(),
            q - segs[0].len() - placeholder(ms[0]).len(),
        )),
{
    let b = stream(segs, ms);
    lemma_marker_chars();
    lemma_segs_ok_rest(segs);
    let seg = segs[0];
    let l = seg.len() as int;
    let ld = lead();
    assert(ld[0] == '_' && ld[1] == '_');
    assert forall|i: int| 2 <= i < 9 implies #[trigger] ld[i] == marker()[i - 2] && ld[i] != '_' by {}
    if ms.len() == 0 {
        assert(b == seg);
        assert(matches_at(seg, ld, q));
    } else {
        lemma_stream_unfold(segs, ms);
        let p = placeholder(ms[0]);
        let pl = p.len() as int;
        lemma_placeholder_shape(ms[0]);
        let rest = stream(segs.drop_first(), ms.drop_first());
        assert(segs.drop_first().len() == ms.drop_first().len() + 1);
        assert(b == seg + p + rest);
        if q + 9 <= l {
            assert(b.subrange(q, q + 9) =~= seg.subrange(q, q + 9));
            assert(matches_at(seg, ld, q));
        } else if q < l {
            if q == l - 1 {
                lemma_matches_char(b, ld, q, 2);
                assert(b[l + 1] == p[1]);
            } else {
                lemma_matches_char(b, ld, q, l - q);
                assert(b[l] == p[0]);
            }
        } else if q == l {
        } else if q < l + pl {
            let o = q - l;
            lemma_matches_char(b, ld, q, 0);
            lemma_matches_char(b, ld, q, 1);
            assert(b[q] == p[o]);
            if o == 1 {
                assert(b[q + 1] == p[2]);
                assert(p.subrange(2, 9)[0] == p[2]);
            } else if o < 9 {
                assert(p.subrange(2, 9)[o - 2] == p[o]);
            } else if o < pl - 2 {
                assert(is_digit(p[o]));
            } else {
                let segs1 = segs.drop_first();
                assert(segs1[0] == segs[1]);
                lemma_stream_head(segs1, ms.drop_first());
                if o == pl - 2 {
                    assert(rest.subrange(0, 7) =~= b.subrange(q + 2, q + 9));
                    assert(b.subrange(q + 2, q + 9) =~= ld.subrange(2, 9)) by {
                        assert forall|i: int| 0 <= i < 7 implies b.subrange(q + 2, q + 9)[i] == ld.subrange(2, 9)[i] by {
                            lemma_matches_char(b, ld, q, i + 2);
                        }
                    }
                    assert(ld.subrange(2, 9) =~= marker());
                    assert(matches_at(rest, marker(), 0));
                } else {
                    assert(rest.subrange(0, 8) =~= b.subrange(q + 1, q + 9));
                    assert(b.subrange(q + 1, q + 9) =~= ld.subrange(1, 9)) by {
                        assert forall|i: int| 0 <= i < 8 implies b.subrange(q + 1, q + 9)[i] == ld.subrange(1, 9)[i] by {
                            lemma_matches_char(b, ld, q, i + 1);
                        }
                    }
                    assert(ld.subrange(1, 9) =~= seq!['_'] + marker());
                    assert(matches_at(rest, seq!['_'] + marker(), 0));
                }
            }
        } else {
            lemma_matches_shift(seg + p, rest, ld, q - l - pl);
        }
    }
}

/// Where the placeholder of `k` occurs in a stream: where the stream's first
/// placeholder is that of `k`, or further on.
proof fn lemma_stream_match(segs: Seq<Seq<char>>, ms: Seq<nat>, k: nat, q: int)
    requires
        segs.len() == ms.len() + 1,
        segs_ok(segs),
        matches_at(stream(segs, ms), placeholder(k), q),
    ensures
        ms.len() > 0,
        (q == segs[0].len() && ms[0] == k) || (q >= segs[0].len() + placeholder(ms[0]).len()
            && matches_at(
            stream(segs.drop_first(), ms.drop_first()),
            placeholder(k),
            q - segs[0].len() - placeholder(ms[0]).len(),
        )),
{
    let b = stream(segs, ms);
    lemma_match_lead(b, k, q);
    lemma_lead_in_stream(segs, ms, q);
    lemma_stream_unfold(segs, ms);
    let seg = segs[0];
    let l = seg.len() as int;
    let p = placeholder(ms[0]);
    let pl = p.len() as int;
    let rest = stream(segs.drop_first(), ms.drop_first());
    if q == l {
        assert(b.subrange(l, l + pl) =~= p);
        lemma_placeholder_unique(b, l, k, ms[0]);
    } else {
        lemma_matches_shift(seg + p, rest, placeholder(k), q - l - pl);
    }
}

/// A stream without the placeholder of `k` does not hold it.
proof fn lemma_stream_no_match(segs: Seq<Seq<char>>, ms: Seq<nat>, k: nat, q: int)
    requires
        segs.len() == ms.len() + 1,
        segs_ok(segs),
        !ms.contains(k),
    ensures
        !matches_at(stream(segs, ms), placeholder(k), q),
    decreases ms.len(),
{
    if matches_at(stream(segs, ms), placeholder(k), q) {
        lemma_stream_match(segs, ms, k, q);
        if q == segs[0].len() && ms[0] == k {
            assert(ms.contains(k));
        } else {
            lemma_segs_ok_rest(segs);
            assert(!ms.drop_first().contains(k)) by {
                if ms.drop_first().contains(k) {
                    let j = choose|j: int| 0 <= j < ms.drop_first().len() && ms.drop_first()[j] == k;
                    assert(ms[j + 1] == k);
                }
            }
            lemma_stream_no_match(
                segs.drop_first(),
                ms.drop_first(),
                k,
                q - segs[0].len() - placeholder(ms[0]).len(),
            );
        }
    }
}

/// Replacing the placeholder of `k` where it is followed by a stream of other
/// placeholders, after a text without placeholder starts, replaces just that
/// occurrence.
proof fn lemma_replace_first(a: Seq<char>, k: nat, t: Seq<char>, segs: Seq<Seq<char>>, ms: Seq<nat>)
    requires
        lead_free(a),
        segs.len() == ms.len() + 1,
        segs_ok(segs),
        clean_start(segs[0]),
        !ms.contains(k),
    ensures
        replace_all(a + placeholder(k) + stream(segs, ms), placeholder(k), t) == a + t + stream(
            segs,
            ms,
        ),
{
    let p = placeholder(k);
    let b = stream(segs, ms);
    let s = a + p + b;
    let segs2 = seq![a] + segs;
    let ms2 = seq![k] + ms;
    assert(segs2.drop_first() =~= segs);
    assert(ms2.drop_first() =~= ms);
    assert(segs2[0] == a);
    assert(ms2[0] == k);
    lemma_stream_unfold(segs2, ms2);
    assert(stream(segs2, ms2) == s);
    assert(segs_ok(segs2)) by {
        assert forall|i: int| 0 <= i < segs2.len() implies lead_free(#[trigger] segs2[i]) && (i > 0
            ==> clean_start(segs2[i])) by {
            if i > 0 {
                assert(segs2[i] == segs[i - 1]);
            }
        }
    }
    lemma_placeholder_shape(k);
    let l = a.len() as int;
    let pl = p.len() as int;
    assert(s.subrange(l, l + pl) =~= p);
    assert forall|q: int| 0 <= q < l implies !#[trigger] matches_at(s, p, q) by {
        if matches_at(s, p, q) {
            lemma_stream_match(segs2, ms2, k, q);
        }
    }
    lemma_find_at(s, p, 0, l);
    assert forall|q: int| l + pl <= q implies !#[trigger] matches_at(s, p, q) by {
        if matches_at(s, p, q) {
            lemma_stream_match(segs2, ms2, k, q);
            lemma_stream_no_match(segs, ms, k, q - l - pl);
        }
    }
    lemma_replace_none(s, p, t, l + pl);
    assert(s.subrange(0, l) =~= a);
    assert(s.subrange(l + pl, s.len() as int) =~= b);
    assert(replace_all(s, p, t) == s.subrange(0, l) + t + replace_from(s, p, t, l + pl));
}

/// The text pieces between the Go templates of `t` from `p` on (see `extract_from`).
pub open spec fn segs_of(t: Seq<char>, p: int) -> Seq<Seq<char>>
    decreases t.len() - p,
{
    if p < 0 || p > t.len() {
        seq![seq![]]
    } else {
        match find_from(t, "{{"@, p) {
            None => seq![t.subrange(p, t.len() as int)],
            Some(st) => match find_from(t, "}}"@, st) {
                None => seq![t.subrange(p, t.len() as int)],
                Some(e) => {
                    proof {
                        lemma_find_from(t, "{{"@, p);
                        lemma_find_from(t, "}}"@, st);
                        reveal_strlit("}}");
                    }
                    seq![t.subrange(p, st)] + segs_of(t, e + 2)
                },
            },
        }
    }
}

proof fn lemma_nums_drop(n: nat, m: nat)
    requires
        n < m,
    ensures
        nums(n, m).drop_first() == nums(n + 1, m),
        nums(n, m)[0] == n,
{
    assert(nums(n, m).drop_first() =~= nums(n + 1, m));
}

/// What extraction leaves: the pieces between the templates with placeholders
/// numbered from `n` in place of the templates; the pieces and the templates
/// make up the text again.
proof fn lemma_extract_shape(t: Seq<char>, p: int, n: nat)
    requires
        0 <= p <= t.len(),
        no_collision(t),
    ensures
        ({
            let (o, ts) = extract_from(t, p, n);
            let sg = segs_of(t, p);
            &&& sg.len() == ts.len() + 1
            &&& o == stream(sg, nums(n, n + ts.len()))
            &&& interleave(sg, ts) == t.subrange(p, t.len() as int)
            &&& segs_ok(sg)
            &&& p + sg[0].len() <= t.len()
            &&& sg[0] == t.subrange(p, p + sg[0].len())
        }),
    decreases t.len() - p,
{
    lemma_find_from(t, "{{"@, p);
    let (o, ts) = extract_from(t, p, n);
    let sg = segs_of(t, p);
    match find_from(t, "{{"@, p) {
        None => {
            lemma_lead_free_sub(t, p, t.len() as int);
            assert(nums(n, n) =~= Seq::<nat>::empty());
            assert(phs(nums(n, n)) =~= Seq::<Seq<char>>::empty());
        },
        Some(st) => {
            lemma_find_from(t, "}}"@, st);
            match find_from(t, "}}"@, st) {
                None => {
                    lemma_lead_free_sub(t, p, t.len() as int);
                    assert(nums(n, n) =~= Seq::<nat>::empty());
                    assert(phs(nums(n, n)) =~= Seq::<Seq<char>>::empty());
                },
                Some(e) => {
                    reveal_strlit("}}");
                    assert(e + 2 <= t.len());
                    lemma_extract_shape(t, e + 2, n + 1);
                    let (o2, ts2) = extract_from(t, e + 2, n + 1);
                    let sg2 = segs_of(t, e + 2);
                    assert(ts == seq![t.subrange(st, e + 2)] + ts2);
                    assert(sg == seq![t.subrange(p, st)] + sg2);
                    assert(sg.drop_first() =~= sg2);
                    assert(ts.drop_first() =~= ts2);
                    let ms = nums(n, n + ts.len());
                    lemma_nums_drop(n, n + ts.len());
                    lemma_stream_unfold(sg, ms);
                    assert(o == t.subrange(p, st) + placeholder(n) + o2);
                    assert(t.subrange(p, t.len() as int) =~= t.subrange(p, st) + t.subrange(st, e + 2)
                        + t.subrange(e + 2, t.len() as int));
                    lemma_lead_free_sub(t, p, st);
                    let x = sg2[0];
                    let e2 = e + 2;
                    assert(matches_at(t, "}}"@, e));
                    assert(t[e] == '}' && t[e + 1] == '}') by {
                        assert(t.subrange(e, e + 2)[0] == t[e]);
                        assert(t.subrange(e, e + 2)[1] == t[e + 1]);
                    }
                    assert(clean_start(x)) by {
                        lemma_marker_chars();
                        if matches_at(x, marker(), 0) {
                            assert(t.subrange(e, e + 9) =~= close_marker()) by {
                                assert forall|i: int| 0 <= i < 9 implies t.subrange(e, e + 9)[i]
                                    == (close_marker())[i] by {
                                    if i >= 2 {
                                        assert(x.subrange(0, 7)[i - 2] == x[i - 2]);
                                        assert(x[i - 2] == t[e2 + i - 2]);
                                    }
                                }
                            }
                            assert(matches_at(t, close_marker(), e));
                        }
                        if matches_at(x, seq!['_'] + marker(), 0) {
                            assert(t.subrange(e, e + 10) =~= close_u_marker()) by {
                                assert forall|i: int| 0 <= i < 10 implies t.subrange(e, e + 10)[i]
                                    == (close_u_marker())[i] by {
                                    if i >= 2 {
                                        assert(x.subrange(0, 8)[i - 2] == x[i - 2]);
                                        assert(x[i - 2] == t[e2 + i - 2]);
                                    }
                                }
                            }
                            assert(matches_at(t, close_u_marker(), e));
                        }
                    }
                    assert forall|i: int| 0 <= i < sg.len() implies lead_free(#[trigger] sg[i]) && (i > 0
                        ==> clean_start(sg[i])) by {
                        if i > 0 {
                            assert(sg[i] == sg2[i - 1]);
                        }
                    }
                },
            }
        },
    }
}

/// Restoring the first `k` placeholders of an extracted text puts the first `k`
/// templates back in their places.
proof fn lemma_restore_steps(segs: Seq<Seq<char>>, ts: Seq<Seq<char>>, k: int)
    requires
        segs.len() == ts.len() + 1,
        segs_ok(segs),
        lead_free(interleave(segs, ts)),
        0 <= k <= ts.len(),
    ensures
        restore_fold(stream(segs, nums(0, ts.len())), ts, k) == interleave(
            segs,
            ts.take(k) + phs(nums(k as nat, ts.len())),
        ),
    decreases k,
{
    let n = ts.len();
    if k == 0 {
        assert(ts.take(0) + phs(nums(0, n)) =~= phs(nums(0, n)));
    } else {
        let j = k - 1;
        lemma_restore_steps(segs, ts, j);
        let xj = ts.take(j) + phs(nums(j as nat, n));
        let xk = ts.take(k) + phs(nums(k as nat, n));
        lemma_interleave_split(segs, xj, j);
        lemma_interleave_split(segs, xk, j);
        lemma_interleave_split(segs, ts, j);
        assert(xj.take(j) =~= ts.take(j));
        assert(xk.take(j) =~= ts.take(j));
        assert(xj[j] == placeholder(j as nat));
        assert(xk[j] == ts[j]);
        let rest = nums((j + 1) as nat, n);
        assert(xj.skip(j + 1) =~= phs(rest));
        assert(xk.skip(j + 1) =~= phs(rest));
        let a = interleave(segs.take(j + 1), ts.take(j));
        let whole = interleave(segs, ts);
        assert(whole.subrange(0, a.len() as int) =~= a);
        lemma_lead_free_sub(whole, 0, a.len() as int);
        let sk = segs.skip(j + 1);
        assert(segs_ok(sk)) by {
            assert forall|i: int| 0 <= i < sk.len() implies lead_free(#[trigger] sk[i]) && (i > 0
                ==> clean_start(sk[i])) by {
                assert(sk[i] == segs[j + 1 + i]);
            }
        }
        assert(sk[0] == segs[j + 1]);
        assert(!rest.contains(j as nat)) by {
            if rest.contains(j as nat) {
                let q = choose|q: int| 0 <= q < rest.len() && rest[q] == j as nat;
            }
        }
        lemma_replace_first(a, j as nat, ts[j], sk, rest);
    }
}

/// Taking the Go templates out of a text and putting them back gives the
/// text again, for any text in which no placeholder can be mistaken for
/// another: it holds no `__GOTEMPL`, and no `}}` in it is followed by
/// `GOTEMPL` or `_GOTEMPL`.
pub proof fn lemma_go_templates_restored(t: Seq<char>)
    requires
        !contains(t, "__GOTEMPL"@),
        !contains(t, "}}GOTEMPL"@),
        !contains(t, "}}_GOTEMPL"@),
    ensures
        restore_fold(extract_from(t, 0, 0).0, extract_from(t, 0, 0).1, extract_from(t, 0, 0).1.len() as int)
            == t,
{
    reveal_strlit("__GOTEMPL");
    reveal_strlit("}}GOTEMPL");
    reveal_strlit("}}_GOTEMPL");
    reveal_strlit("GOTEMPL");
    assert("__GOTEMPL"@ =~= lead());
    assert("}}GOTEMPL"@ =~= close_marker());
    assert("}}_GOTEMPL"@ =~= close_u_marker());
    lemma_find_from(t, lead(), 0);
    lemma_find_from(t, close_marker(), 0);
    lemma_find_from(t, close_u_marker(), 0);
    assert(no_collision(t));
    lemma_extract_shape(t, 0, 0);
    let (o, ts) = extract_from(t, 0, 0);
    let sg = segs_of(t, 0);
    assert(t.subrange(0, t.len() as int) =~= t);
    lemma_restore_steps(sg, ts, ts.len() as int);
    assert(ts.take(ts.len() as int) + phs(nums(ts.len(), ts.len())) =~= ts);
}

} // verus!
