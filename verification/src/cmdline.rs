//! `cmdline.txt` assembly: firstboot expansion, order-preserving token
//! dedup, and fresh wall-clock injection.

use crate::text::{
    chars_equal, chars_of, decimal, push_all, push_decimal, replace, replace_chars, spans_within,
    span_view, squeeze, squeeze_chars, string_of, strip_markers, strip_markers_chars, sub_chars,
    token_spans, tokens, trim, trim_bounds, trim_start, space_free, border_free, is_ws,
    lemma_squeeze_append, lemma_squeeze_last, lemma_trim_start_suffix, lemma_trim_append,
    lemma_strip_markers_tail, lemma_decimal_digits, ws_free, lemma_tokens_words, lemma_tokens_word,
    lemma_tokens_append, occurs_at, lemma_strip_markers_removes_all, lemma_squeeze_keeps_absent,
    lemma_strip_markers_identity, lemma_squeeze_single_spaced, lemma_squeeze_single_spaced_id,
    lemma_trim_start_idempotent, lemma_trim_push_space, single_line, lemma_single_line_concat,
    lemma_single_line_skip, lemma_single_line_strip_markers, lemma_single_line_squeeze,
    occurs_nowhere, single_spaced, trimmed, lemma_trim_trimmed, lemma_trimmed_id,
    lemma_subrange_clean, lemma_trim_start_head,
};
use vstd::prelude::*;

verus! {

pub open spec fn firstboot_marker() -> Seq<char> {
    "$ignition_firstboot"@
}

pub open spec fn firstboot_arg() -> Seq<char> {
    "ignition.firstboot=1"@
}

pub open spec fn clock_key() -> Seq<char> {
    "systemd.clock_usec="@
}

/// BLS options with `$ignition_firstboot` expanded and spaces squeezed.
pub open spec fn expanded(options: Seq<char>, firstboot: bool) -> Seq<char> {
    squeeze(
        replace(
            options,
            firstboot_marker(),
            if firstboot {
                firstboot_arg()
            } else {
                Seq::empty()
            },
        ),
    )
}

/// `ts` joined with `sep` between neighbours.
pub open spec fn join(ts: Seq<Seq<char>>, sep: Seq<char>) -> Seq<char>
    decreases ts.len(),
{
    if ts.len() == 0 {
        Seq::empty()
    } else if ts.len() == 1 {
        ts[0]
    } else {
        join(ts.drop_last(), sep) + sep + ts.last()
    }
}

/// `ts` with every repeat of an earlier element removed, order kept.
pub open spec fn dedup(ts: Seq<Seq<char>>) -> Seq<Seq<char>>
    decreases ts.len(),
{
    if ts.len() == 0 {
        ts
    } else {
        let d = dedup(ts.drop_last());
        if d.contains(ts.last()) {
            d
        } else {
            d.push(ts.last())
        }
    }
}

/// The tokens of `s`, first occurrences only, joined by single spaces.
pub open spec fn deduped(s: Seq<char>) -> Seq<char> {
    join(dedup(tokens(s)), seq![' '])
}

/// `s` without any `systemd.clock_usec=` token, squeezed and trimmed.
pub open spec fn clock_stripped(s: Seq<char>) -> Seq<char> {
    trim(squeeze(strip_markers(s, clock_key())))
}

/// `s` with any clock token replaced by `systemd.clock_usec=<n>` as the last
/// token, squeezed and trimmed.
pub open spec fn clock_injected(s: Seq<char>, n: nat) -> Seq<char> {
    trim(squeeze(strip_markers(s, clock_key()) + seq![' '] + clock_key() + decimal(n)))
}

/// Expand `$ignition_firstboot` in BLS options and squeeze spaces.
pub fn expand_firstboot(bls_options: &str, firstboot: bool) -> (r: String)
    ensures
        r@ == expanded(bls_options@, firstboot),
{
    let s = chars_of(bls_options);
    let marker = chars_of("$ignition_firstboot");
    let replacement = if firstboot {
        chars_of("ignition.firstboot=1")
    } else {
        Vec::new()
    };
    proof {
        reveal_strlit("$ignition_firstboot");
    }
    let replaced = replace_chars(&s, &marker, &replacement);
    let out = squeeze_chars(&replaced);
    string_of(&out)
}

fn contains_token(kept: &Vec<Vec<char>>, t: &[char]) -> (b: bool)
    ensures
        b == kept@.map_values(|v: Vec<char>| v@).contains(t@),
{
    let ghost kv = kept@.map_values(|v: Vec<char>| v@);
    let mut k: usize = 0;
    while k < kept.len()
        invariant
            k <= kept@.len(),
            kv == kept@.map_values(|v: Vec<char>| v@),
            forall|j: int| 0 <= j < k ==> kv[j] != t@,
        decreases kept.len() - k,
    {
        if chars_equal(&kept[k], t) {
            assert(kv[k as int] == t@);
            return true;
        }
        k = k + 1;
    }
    false
}

/// `ts` joined by single spaces.
fn join_spaced(ts: &Vec<Vec<char>>) -> (out: Vec<char>)
    ensures
        out@ == join(ts@.map_values(|v: Vec<char>| v@), seq![' ']),
{
    let ghost tv = ts@.map_values(|v: Vec<char>| v@);
    let mut out: Vec<char> = Vec::new();
    let mut k: usize = 0;
    assert(tv.take(0) =~= Seq::<Seq<char>>::empty());
    while k < ts.len()
        invariant
            k <= ts@.len(),
            tv == ts@.map_values(|v: Vec<char>| v@),
            out@ == join(tv.take(k as int), seq![' ']),
        decreases ts.len() - k,
    {
        assert(tv.take(k + 1).drop_last() =~= tv.take(k as int));
        if k > 0 {
            out.push(' ');
        }
        push_all(&mut out, &ts[k]);
        k = k + 1;
        assert(out@ =~= join(tv.take(k as int), seq![' ']));
    }
    assert(tv.take(ts@.len() as int) =~= tv);
    out
}

/// Order-preserving, keep-first-occurrence whole-token dedup; tokens are
/// split on all whitespace and joined by single spaces.
pub fn dedup_tokens(cmdline: &str) -> (r: String)
    ensures
        r@ == deduped(cmdline@),
{
    let s = chars_of(cmdline);
    let spans = token_spans(&s);
    let ghost ts = tokens(s@);
    let mut kept: Vec<Vec<char>> = Vec::new();
    let mut k: usize = 0;
    assert(ts.take(0) =~= Seq::<Seq<char>>::empty());
    while k < spans.len()
        invariant
            k <= spans@.len(),
            spans_within(s@, spans@),
            span_view(s@, spans@) == ts,
            kept@.map_values(|v: Vec<char>| v@) == dedup(ts.take(k as int)),
        decreases spans.len() - k,
    {
        let (a, b) = spans[k];
        let t = sub_chars(&s, a, b);
        assert(t@ == ts[k as int]);
        assert(ts.take(k + 1).drop_last() =~= ts.take(k as int));
        assert(ts.take(k + 1).last() == t@);
        let ghost before = kept@.map_values(|v: Vec<char>| v@);
        if !contains_token(&kept, &t) {
            kept.push(t);
            assert(kept@.map_values(|v: Vec<char>| v@) =~= before.push(ts[k as int]));
        }
        k = k + 1;
    }
    assert(ts.take(spans@.len() as int) =~= ts);
    let out = join_spaced(&kept);
    string_of(&out)
}

/// Strip every `systemd.clock_usec=` token, then squeeze and trim; used for
/// the idempotency comparison.
pub fn strip_clock(cmdline: &str) -> (r: String)
    ensures
        r@ == clock_stripped(cmdline@),
{
    let s = chars_of(cmdline);
    let key = chars_of("systemd.clock_usec=");
    proof {
        reveal_strlit("systemd.clock_usec=");
    }
    let stripped = strip_markers_chars(&s, &key);
    let squeezed = squeeze_chars(&stripped);
    let (a, b) = trim_bounds(&squeezed, 0, squeezed.len());
    assert(squeezed@.subrange(0, squeezed@.len() as int) =~= squeezed@);
    let out = sub_chars(&squeezed, a, b);
    string_of(&out)
}

/// Strip any existing `systemd.clock_usec=` token, then append a fresh one
/// as the last token.
pub fn inject_clock(cmdline: &str, clock_usec_micros: u64) -> (r: String)
    ensures
        r@ == clock_injected(cmdline@, clock_usec_micros as nat),
{
    let s = chars_of(cmdline);
    let key = chars_of("systemd.clock_usec=");
    proof {
        reveal_strlit("systemd.clock_usec=");
    }
    let mut joined = strip_markers_chars(&s, &key);
    let ghost stripped = joined@;
    joined.push(' ');
    push_all(&mut joined, &key);
    push_decimal(&mut joined, clock_usec_micros);
    assert(joined@ =~= stripped + seq![' '] + key@ + decimal(clock_usec_micros as nat));
    let squeezed = squeeze_chars(&joined);
    let (a, b) = trim_bounds(&squeezed, 0, squeezed.len());
    assert(squeezed@.subrange(0, squeezed@.len() as int) =~= squeezed@);
    let out = sub_chars(&squeezed, a, b);
    string_of(&out)
}

/// What precedes the clock token in `clock_injected(s, n)`.
pub open spec fn clock_prefix(s: Seq<char>) -> Seq<char> {
    trim_start(squeeze(strip_markers(s, clock_key()) + seq![' ']))
}

proof fn lemma_clock_key()
    ensures
        clock_key().len() == 19,
        clock_key()[0] == 's',
        space_free(clock_key()),
        ws_free(clock_key()),
        border_free(clock_key()),
{
    reveal_strlit("systemd.clock_usec=");
    let k = clock_key();
    assert forall|i: int| 0 <= i < k.len() implies !is_ws(#[trigger] k[i]) by {
        assert(k[i] == '=' || k[i] == '.' || k[i] == '_' || ('a' <= k[i] && k[i] <= 'z'));
    }
    assert forall|j: int| 0 < j < k.len() implies #[trigger] k.skip(j) != k.take(k.len() - j) by {
        if j == 2 || j == 15 {
            assert(k.skip(j)[1] != k.take(k.len() - j)[1]);
        } else {
            assert(k.skip(j)[0] != k.take(k.len() - j)[0]);
        }
    }
}

proof fn lemma_clock_token(n: nat)
    ensures
        ({
            let q = clock_key() + decimal(n);
            &&& q.len() > 0
            &&& space_free(q)
            &&& ws_free(q)
            &&& !is_ws(q[0])
            &&& !is_ws(q.last())
        }),
{
    lemma_clock_key();
    lemma_decimal_digits(n);
    let k = clock_key();
    let d = decimal(n);
    let q = k + d;
    assert forall|i: int| 0 <= i < q.len() implies #[trigger] q[i] != ' ' && !is_ws(q[i]) by {
        if i >= k.len() {
            assert(q[i] == d[i - k.len()]);
        } else {
            assert(q[i] == k[i]);
        }
    }
    assert(q.last() == d[d.len() - 1]);
}

/// The fresh clock token is the last token: `clock_injected(s, n)` is
/// `systemd.clock_usec=<n>` preceded by nothing or by text ending in a space.
pub proof fn lemma_clock_token_last(s: Seq<char>, n: nat)
    ensures
        clock_injected(s, n) == clock_prefix(s) + clock_key() + decimal(n),
        clock_prefix(s).len() == 0 || clock_prefix(s).last() == ' ',
{
    lemma_clock_token(n);
    let a = strip_markers(s, clock_key());
    let q = clock_key() + decimal(n);
    assert(a + seq![' '] + clock_key() + decimal(n) =~= (a + seq![' ']) + q);
    lemma_squeeze_append(a + seq![' '], q);
    let z = squeeze(a + seq![' ']);
    lemma_trim_append(z, q);
    assert(clock_prefix(s) + clock_key() + decimal(n) =~= clock_prefix(s) + q);
    lemma_squeeze_last(a + seq![' ']);
    lemma_trim_start_suffix(z);
    let k = choose|k: int| 0 <= k <= z.len() && trim_start(z) == z.skip(k);
    if clock_prefix(s).len() > 0 {
        assert(clock_prefix(s).last() == z.last());
    }
}

/// Refreshing the clock never changes what the idempotency comparison sees:
/// the same cmdline with two different clock values strips to the same text.
pub proof fn lemma_clock_refresh_invisible(s: Seq<char>, n1: nat, n2: nat)
    ensures
        clock_stripped(clock_injected(s, n1)) == clock_stripped(clock_injected(s, n2)),
{
    lemma_clock_key();
    lemma_clock_token_last(s, n1);
    lemma_clock_token_last(s, n2);
    lemma_decimal_digits(n1);
    lemma_decimal_digits(n2);
    assert(space_free(decimal(n1)));
    assert(space_free(decimal(n2)));
    lemma_strip_markers_tail(clock_prefix(s), clock_key(), decimal(n1));
    lemma_strip_markers_tail(clock_prefix(s), clock_key(), decimal(n2));
}

/// Each of `ts` is a non-empty word without whitespace.
pub open spec fn all_words(ts: Seq<Seq<char>>) -> bool {
    forall|k: int| 0 <= k < ts.len() ==> (#[trigger] ts[k]).len() > 0 && ws_free(ts[k])
}

proof fn lemma_tokens_join(d: Seq<Seq<char>>)
    requires
        all_words(d),
    ensures
        tokens(join(d, seq![' '])) == d,
    decreases d.len(),
{
    if d.len() == 0 {
        assert(tokens(Seq::<char>::empty()) =~= d);
    } else if d.len() == 1 {
        lemma_tokens_word(d[0]);
        assert(seq![d[0]] =~= d);
    } else {
        let e = d.drop_last();
        assert(all_words(e)) by {
            assert forall|k: int| 0 <= k < e.len() implies (#[trigger] e[k]).len() > 0 && ws_free(
                e[k],
            ) by {
                assert(e[k] == d[k]);
            }
        }
        lemma_tokens_join(e);
        assert(d.last() == d[d.len() - 1]);
        lemma_tokens_append(join(e, seq![' ']), d.last());
        assert(e.push(d.last()) =~= d);
    }
}

proof fn lemma_join_single_line(d: Seq<Seq<char>>)
    requires
        all_words(d),
    ensures
        forall|i: int|
            0 <= i < join(d, seq![' ']).len() ==> #[trigger] join(d, seq![' '])[i] == ' '
                || !is_ws(join(d, seq![' '])[i]),
    decreases d.len(),
{
    if d.len() == 1 {
        assert(join(d, seq![' ']) == d[0]);
    } else if d.len() > 1 {
        let e = d.drop_last();
        assert forall|k: int| 0 <= k < e.len() implies (#[trigger] e[k]).len() > 0 && ws_free(
            e[k],
        ) by {
            assert(e[k] == d[k]);
        }
        lemma_join_single_line(e);
        let a = join(e, seq![' ']);
        let w = d[d.len() - 1];
        assert(join(d, seq![' ']) == a + seq![' '] + w);
        assert forall|i: int| 0 <= i < join(d, seq![' ']).len() implies #[trigger] join(
            d,
            seq![' '],
        )[i] == ' ' || !is_ws(join(d, seq![' '])[i]) by {
            if i < a.len() {
                assert(join(d, seq![' '])[i] == a[i]);
            } else if i > a.len() {
                assert(join(d, seq![' '])[i] == w[i - a.len() - 1]);
            }
        }
    }
}

proof fn lemma_dedup_props(ts: Seq<Seq<char>>)
    ensures
        dedup(ts).no_duplicates(),
        forall|t: Seq<char>| dedup(ts).contains(t) <==> ts.contains(t),
    decreases ts.len(),
{
    if ts.len() > 0 {
        let e = ts.drop_last();
        let l = ts.last();
        let d = dedup(ts);
        let de = dedup(e);
        lemma_dedup_props(e);
        assert forall|t: Seq<char>| ts.contains(t) <==> (e.contains(t) || t == l) by {
            if ts.contains(t) {
                let i = choose|i: int| 0 <= i < ts.len() && ts[i] == t;
                if i < e.len() {
                    assert(e[i] == t);
                }
            }
            if e.contains(t) {
                let i = choose|i: int| 0 <= i < e.len() && e[i] == t;
                assert(ts[i] == t);
            }
            if t == l {
                assert(ts[ts.len() - 1] == t);
            }
        }
        if !de.contains(l) {
            assert(d == de.push(l));
            assert forall|t: Seq<char>| d.contains(t) <==> (de.contains(t) || t == l) by {
                if d.contains(t) {
                    let i = choose|i: int| 0 <= i < d.len() && d[i] == t;
                    if i < de.len() {
                        assert(de[i] == t);
                    }
                }
                if de.contains(t) {
                    let i = choose|i: int| 0 <= i < de.len() && de[i] == t;
                    assert(d[i] == t);
                }
                if t == l {
                    assert(d[d.len() - 1] == t);
                }
            }
            assert forall|i: int, j: int|
                (0 <= i < d.len() && 0 <= j < d.len() && i != j) implies d[i] != d[j] by {
                if i == d.len() - 1 {
                    assert(de[j] == d[j]);
                } else if j == d.len() - 1 {
                    assert(de[i] == d[i]);
                } else {
                    assert(de[i] == d[i]);
                    assert(de[j] == d[j]);
                }
            }
        }
    }
}

proof fn lemma_dedup_distinct(ts: Seq<Seq<char>>)
    requires
        ts.no_duplicates(),
    ensures
        dedup(ts) == ts,
    decreases ts.len(),
{
    if ts.len() > 0 {
        let e = ts.drop_last();
        assert(e.no_duplicates());
        lemma_dedup_distinct(e);
        if e.contains(ts.last()) {
            let i = choose|i: int| 0 <= i < e.len() && e[i] == ts.last();
            assert(ts[i] == ts[ts.len() - 1]);
        }
        assert(e.push(ts.last()) =~= ts);
    }
}

proof fn lemma_dedup_words(ts: Seq<Seq<char>>)
    requires
        all_words(ts),
    ensures
        all_words(dedup(ts)),
{
    lemma_dedup_props(ts);
    assert forall|k: int| 0 <= k < dedup(ts).len() implies (#[trigger] dedup(ts)[k]).len() > 0
        && ws_free(dedup(ts)[k]) by {
        assert(dedup(ts).contains(dedup(ts)[k]));
        assert(ts.contains(dedup(ts)[k]));
        let i = choose|i: int| 0 <= i < ts.len() && ts[i] == dedup(ts)[k];
        assert(ts[i].len() > 0 && ws_free(ts[i]));
    }
}

/// Token dedup keeps each token once, in first-occurrence order: the result
/// splits into exactly `dedup` of the input's tokens, holds no token twice
/// and the same set of tokens, stays on a single line (its only whitespace
/// is single spaces), and deduplicating it again changes nothing.
pub proof fn lemma_deduped(s: Seq<char>)
    ensures
        tokens(deduped(s)) == dedup(tokens(s)),
        tokens(deduped(s)).no_duplicates(),
        forall|t: Seq<char>| tokens(deduped(s)).contains(t) <==> tokens(s).contains(t),
        forall|i: int|
            0 <= i < deduped(s).len() ==> #[trigger] deduped(s)[i] == ' ' || !is_ws(deduped(s)[i]),
        deduped(deduped(s)) == deduped(s),
{
    let ts = tokens(s);
    lemma_tokens_words(s);
    assert(all_words(ts));
    lemma_dedup_words(ts);
    lemma_tokens_join(dedup(ts));
    lemma_dedup_props(ts);
    lemma_join_single_line(dedup(ts));
    lemma_dedup_distinct(dedup(ts));
}

/// Stripping the clock undoes injecting one: a cmdline with a fresh clock
/// token strips to the same text as the cmdline itself.
pub proof fn lemma_strip_undoes_inject(s: Seq<char>, n: nat)
    ensures
        clock_stripped(clock_injected(s, n)) == clock_stripped(s),
{
    let k = clock_key();
    let d = decimal(n);
    lemma_clock_key();
    lemma_clock_token_last(s, n);
    lemma_decimal_digits(n);
    assert(space_free(d));
    let a = strip_markers(s, k);
    let a1 = a.push(' ');
    assert(a + seq![' '] =~= a1);
    let z = squeeze(a1);
    let p = clock_prefix(s);
    assert(p == trim_start(z));
    lemma_strip_markers_tail(p, k, d);
    lemma_strip_markers_removes_all(s, k);
    assert forall|i: int| !#[trigger] occurs_at(a1, i, k) by {
        if occurs_at(a1, i, k) {
            if i + k.len() <= a.len() {
                assert(a.subrange(i, i + k.len()) =~= a1.subrange(i, i + k.len()));
                assert(occurs_at(a, i, k));
            } else {
                assert(a1.subrange(i, i + k.len())[k.len() - 1] == ' ');
                assert(k[k.len() - 1] != ' ');
            }
        }
    }
    lemma_squeeze_keeps_absent(a1, k);
    lemma_trim_start_suffix(z);
    let j = choose|j: int| 0 <= j <= z.len() && trim_start(z) == z.skip(j);
    assert forall|i: int| !#[trigger] occurs_at(p, i, k) by {
        if occurs_at(p, i, k) {
            assert(z.subrange(i + j, i + j + k.len()) =~= p.subrange(i, i + k.len()));
            assert(occurs_at(z, i + j, k));
        }
    }
    lemma_strip_markers_identity(p, k);
    lemma_squeeze_single_spaced(a1);
    assert forall|i: int| 0 <= i < p.len() - 1 implies !(#[trigger] p[i] == ' ' && p[i + 1] == ' ') by {
        assert(p[i] == z[i + j] && p[i + 1] == z[i + 1 + j]);
    }
    lemma_squeeze_single_spaced_id(p);
    lemma_trim_start_idempotent(z);
    assert(trim(p) == trim(z));
    if a.len() >= 1 && a.last() == ' ' {
        assert(a1.drop_last() =~= a);
        assert(z == squeeze(a));
    } else {
        assert(a1.drop_last() =~= a);
        assert(z == squeeze(a).push(' '));
        lemma_trim_push_space(squeeze(a));
    }
}

/// Injecting the clock keeps a one-line cmdline on one line.
pub proof fn lemma_clock_injected_single_line(s: Seq<char>, n: nat)
    requires
        single_line(s),
    ensures
        single_line(clock_injected(s, n)),
{
    lemma_clock_token_last(s, n);
    lemma_clock_token(n);
    let k = clock_key();
    let q = k + decimal(n);
    let a = strip_markers(s, k);
    lemma_single_line_strip_markers(s, k);
    assert(single_line(seq![' ']));
    lemma_single_line_concat(a, seq![' ']);
    lemma_single_line_squeeze(a + seq![' ']);
    let z = squeeze(a + seq![' ']);
    lemma_trim_start_suffix(z);
    let j = choose|j: int| 0 <= j <= z.len() && trim_start(z) == z.skip(j);
    lemma_single_line_skip(z, j);
    assert(single_line(q));
    lemma_single_line_concat(clock_prefix(s), q);
    assert(clock_prefix(s) + k + decimal(n) =~= clock_prefix(s) + q);
}

/// No clock token, no two spaces in a row, no whitespace at either end.
pub open spec fn clock_clean(s: Seq<char>) -> bool {
    &&& occurs_nowhere(s, clock_key())
    &&& single_spaced(s)
    &&& trimmed(s)
}

/// Stripping the clock gives clean text and leaves clean text as it is, so
/// stripping twice is stripping once.
pub proof fn lemma_strip_clock_clean(s: Seq<char>)
    ensures
        clock_clean(clock_stripped(s)),
        clock_stripped(clock_stripped(s)) == clock_stripped(s),
{
    let k = clock_key();
    lemma_clock_key();
    let z = squeeze(strip_markers(s, k));
    lemma_strip_markers_removes_all(s, k);
    lemma_squeeze_keeps_absent(strip_markers(s, k), k);
    lemma_squeeze_single_spaced(strip_markers(s, k));
    lemma_trim_trimmed(z);
    let (a, b) = choose|a: int, b: int| 0 <= a <= b <= z.len() && trim(z) == z.subrange(a, b);
    lemma_subrange_clean(z, k, a, b);
    lemma_strip_clock_identity(clock_stripped(s));
}

/// Clean text is left as it is by stripping the clock.
pub proof fn lemma_strip_clock_identity(s: Seq<char>)
    requires
        clock_clean(s),
    ensures
        clock_stripped(s) == s,
{
    lemma_clock_key();
    lemma_strip_markers_identity(s, clock_key());
    lemma_squeeze_single_spaced_id(s);
    lemma_trimmed_id(s);
}

/// What precedes the clock token: without a clock token or double spaces,
/// empty or starting with a non-whitespace character and ending with a
/// space.
proof fn lemma_clock_prefix_shape(s: Seq<char>)
    ensures
        occurs_nowhere(clock_prefix(s), clock_key()),
        single_spaced(clock_prefix(s)),
        clock_prefix(s).len() == 0 || (!is_ws(clock_prefix(s)[0]) && clock_prefix(s).last()
            == ' '),
{
    let k = clock_key();
    lemma_clock_key();
    let a = strip_markers(s, k);
    let a1 = a + seq![' '];
    lemma_strip_markers_removes_all(s, k);
    assert forall|i: int| !#[trigger] occurs_at(a1, i, k) by {
        if occurs_at(a1, i, k) {
            if i + k.len() <= a.len() {
                assert(a.subrange(i, i + k.len()) =~= a1.subrange(i, i + k.len()));
                assert(occurs_at(a, i, k));
            } else {
                assert(a1.subrange(i, i + k.len())[k.len() - 1] == ' ');
                assert(k[k.len() - 1] != ' ');
            }
        }
    }
    let z = squeeze(a1);
    lemma_squeeze_keeps_absent(a1, k);
    lemma_squeeze_single_spaced(a1);
    lemma_trim_start_suffix(z);
    let j = choose|j: int| 0 <= j <= z.len() && trim_start(z) == z.skip(j);
    assert(z.skip(j) =~= z.subrange(j, z.len() as int));
    lemma_subrange_clean(z, k, j, z.len() as int);
    lemma_trim_start_head(z);
    lemma_clock_token_last(s, 0);
}

/// Injecting the clock gives one line with exactly one clock token, the
/// last one: the text is trimmed, has no two spaces in a row, holds the
/// clock key only where the last token starts, and strips to what the input
/// strips to.
pub proof fn lemma_inject_clock_shape(s: Seq<char>, n: nat)
    ensures
        ({
            let r = clock_injected(s, n);
            &&& forall|i: int| #[trigger] occurs_at(r, i, clock_key()) <==> i == clock_prefix(s).len()
            &&& single_spaced(r)
            &&& trimmed(r)
            &&& clock_stripped(r) == clock_stripped(s)
        }),
{
    let k = clock_key();
    let p = clock_prefix(s);
    let d = decimal(n);
    let q = k + d;
    let r = clock_injected(s, n);
    lemma_clock_key();
    lemma_clock_token(n);
    lemma_clock_token_last(s, n);
    lemma_clock_prefix_shape(s);
    lemma_decimal_digits(n);
    lemma_strip_undoes_inject(s, n);
    assert(r =~= p + q);
    assert forall|i: int| #[trigger] occurs_at(r, i, k) <==> i == p.len() by {
        if i == p.len() {
            assert(r.subrange(i, i + k.len()) =~= k);
        }
        if occurs_at(r, i, k) && i != p.len() {
            let w = r.subrange(i, i + k.len());
            if i + k.len() <= p.len() {
                assert(p.subrange(i, i + k.len()) =~= w);
                assert(occurs_at(p, i, k));
            } else if i < p.len() {
                assert(w[p.len() - 1 - i] == p.last());
                assert(k[p.len() - 1 - i] != ' ');
            } else if i - p.len() < k.len() {
                let j = i - p.len();
                assert(k.skip(j) =~= w.take(k.len() - j));
                assert(k.take(k.len() - j) =~= w.take(k.len() - j));
                assert(k.skip(j) != k.take(k.len() - j));
            } else {
                assert(w[0] == d[i - p.len() - k.len()]);
                assert(k[0] == 's');
            }
        }
    }
    assert forall|i: int| 0 <= i < r.len() - 1 implies !(#[trigger] r[i] == ' ' && r[i + 1] == ' ') by {
        if i + 1 < p.len() {
            assert(r[i] == p[i] && r[i + 1] == p[i + 1]);
        } else {
            assert(r[i + 1] == q[i + 1 - p.len()]);
        }
    }
    if p.len() > 0 {
        assert(r[0] == p[0]);
    } else {
        assert(r[0] == q[0]);
    }
    assert(r.last() == q.last());
}

/// Injecting the clock into an already injected cmdline gives what a single
/// injection gives: the old clock token is replaced, not kept.
pub proof fn lemma_inject_clock_idempotent(s: Seq<char>, m: nat, n: nat)
    ensures
        clock_injected(clock_injected(s, m), n) == clock_injected(s, n),
{
    let k = clock_key();
    let p = clock_prefix(s);
    let qn = k + decimal(n);
    lemma_clock_key();
    lemma_clock_token(n);
    lemma_clock_token_last(s, m);
    lemma_clock_token_last(s, n);
    lemma_clock_prefix_shape(s);
    lemma_decimal_digits(m);
    assert(space_free(decimal(m)));
    lemma_strip_markers_tail(p, k, decimal(m));
    lemma_strip_markers_identity(p, k);
    let p1 = p + seq![' '];
    assert(p + seq![' '] + k + decimal(n) =~= p1 + qn);
    lemma_squeeze_append(p1, qn);
    if p.len() > 0 {
        assert(p1.drop_last() =~= p);
        assert(p1[p1.len() - 2] == p.last());
        lemma_squeeze_single_spaced_id(p);
        assert(squeeze(p1) == p);
        assert(trim_start(p) == p);
    } else {
        assert(p1 =~= seq![' ']);
        assert(p1.drop_last() =~= Seq::<char>::empty());
        assert(squeeze(Seq::<char>::empty()) =~= Seq::<char>::empty());
        assert(squeeze(p1) == squeeze(p1.drop_last()).push(p1.last()));
        assert(squeeze(p1) =~= seq![' ']);
        assert(is_ws(' '));
        assert(seq![' '].drop_first() =~= Seq::<char>::empty());
        assert(trim_start(Seq::<char>::empty()) =~= Seq::<char>::empty());
        assert(trim_start(seq![' ']) == trim_start(seq![' '].drop_first()));
        assert(trim_start(seq![' ']) =~= Seq::<char>::empty());
        assert(p =~= Seq::<char>::empty());
    }
    lemma_trim_append(squeeze(p1), qn);
    assert(clock_injected(s, n) =~= p + qn);
}

} // verus!
